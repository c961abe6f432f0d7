//! Editor state: the open scan, the expanded / selected branches (by identity
//! key), the content selection, and the operations that keep them coherent.
use vstd::prelude::*;
use crate::model::{is_ancestor, scan_wf, str_set, toggled, KeySet, Scan};
use crate::tree::{
    children_index, dfs_rows, is_child, kid_seqs, kids_exact, rows_match, tree_rows, VisibleRow,
};

verus! {

/// The editor's state (the GUI handles and caches live outside).
pub struct Editor {
    pub scan: Option<Scan>,
    /// Children of every branch in display order (see `children_index`).
    pub kids: Vec<Vec<usize>>,
    /// The visible rows of the structure tree.
    pub rows: Vec<VisibleRow>,
    /// Identity keys (`rel`) of the branches whose children are shown.
    pub expanded: KeySet,
    /// Identity key of the active branch.
    pub selected: Option<String>,
    /// Path of the primary selected content entry.
    pub selected_entry_path: Option<String>,
    /// Expanded content folders (full directory paths).
    pub expanded_dirs: KeySet,
    /// Branches whose content panel is open in the mind map.
    pub content_expanded: KeySet,
    /// The content multi-selection (entry paths of the active branch).
    pub entry_multi: KeySet,
    /// Anchor row of Shift range selection.
    pub entry_anchor: Option<usize>,
    /// Bumped on every open / rescan.
    pub scan_gen: u64,
}

/// Identity key of branch `i`; empty outside the scan.
pub open spec fn key_of(s: Scan, i: int) -> Seq<char> {
    if 0 <= i < s.visits.len() {
        s.visits[i].rel@
    } else {
        Seq::<char>::empty()
    }
}

/// The scan index a key resolves to: the last branch with that key.
pub open spec fn index_of_key(s: Scan, key: Seq<char>) -> Option<int> {
    if exists|i: int| 0 <= i < s.visits.len() && s.visits[i].rel@ == key {
        Some(choose|i: int| 0 <= i < s.visits.len() && s.visits[i].rel@ == key
            && forall|j: int| i < j < s.visits.len() ==> s.visits[j].rel@ != key)
    } else {
        None
    }
}

/// The optional string's characters.
pub open spec fn opt_view(o: Option<String>) -> Option<Seq<char>> {
    match o {
        Some(s) => Some(s@),
        None => None,
    }
}

/// Keys of the proper descendants of `v`.
pub open spec fn descendant_keys(s: Scan, v: int) -> Set<Seq<char>> {
    Set::new(|k: Seq<char>| exists|c: int| 0 <= c < s.visits.len() && is_ancestor(s, v, c) && #[trigger] s.visits[c].rel@ == k)
}

/// Keys of the proper descendants of `v` among the first `n` branches.
pub open spec fn descendant_keys_below(s: Scan, v: int, n: int) -> Set<Seq<char>> {
    Set::new(|k: Seq<char>| exists|c: int| 0 <= c < n && c < s.visits.len() && is_ancestor(s, v, c) && #[trigger] s.visits[c].rel@ == k)
}

/// The selected key belongs to `v` or one of its descendants.
pub open spec fn selection_in_subtree(s: Scan, v: int, sel: Option<Seq<char>>) -> bool {
    match sel {
        Some(k) => key_of(s, v) == k || exists|c: int| 0 <= c < s.visits.len() && is_ancestor(s, v, c) && #[trigger] s.visits[c].rel@ == k,
        None => false,
    }
}

/// `path` leads from branch `v` down to branch `c` through the children
/// index, one child at a time.
pub open spec fn kid_chain(kids: Seq<Seq<usize>>, v: int, c: int, path: Seq<int>) -> bool {
    &&& path.len() >= 2
    &&& path[0] == v
    &&& path.last() == c
    &&& forall|i: int| 0 <= i < path.len() ==> 0 <= #[trigger] path[i] < kids.len()
    &&& forall|i: int| 0 <= i < path.len() - 1 ==> kids[#[trigger] path[i]].contains(path[i + 1] as usize)
}

proof fn lemma_ancestor_chain(s: Scan, kids: Seq<Seq<usize>>, v: int, c: int) -> (path: Seq<int>)
    requires
        scan_wf(s),
        kids_exact(s, kids),
        0 <= c < s.visits.len(),
        is_ancestor(s, v, c),
    ensures
        kid_chain(kids, v, c, path),
    decreases c,
{
    let p = s.visits[c].parent.unwrap() as int;
    assert(kids[p].contains(c as usize));
    if p == v {
        let path = seq![v, c];
        assert(path.last() == c);
        path
    } else {
        let pre = lemma_ancestor_chain(s, kids, v, p);
        let path = pre.push(c);
        assert forall|i: int| 0 <= i < path.len() implies 0 <= #[trigger] path[i] < kids.len() by {
            if i < pre.len() {
                assert(path[i] == pre[i]);
            }
        }
        assert forall|i: int| 0 <= i < path.len() - 1 implies kids[#[trigger] path[i]].contains(path[i + 1] as usize) by {
            if i < pre.len() - 1 {
                assert(path[i] == pre[i] && path[i + 1] == pre[i + 1]);
            } else {
                assert(path[i] == p && path[i + 1] == c);
            }
        }
        path
    }
}

proof fn lemma_chain_ancestor(s: Scan, kids: Seq<Seq<usize>>, v: int, c: int, path: Seq<int>)
    requires
        scan_wf(s),
        kids_exact(s, kids),
        kid_chain(kids, v, c, path),
    ensures
        0 <= c < s.visits.len() && is_ancestor(s, v, c),
    decreases path.len(),
{
    let m = path[path.len() - 2];
    assert(0 <= m < kids.len() && kids[m].contains(path[path.len() - 1] as usize));
    assert(0 <= path[path.len() - 1] < kids.len());
    assert(is_child(s, m, c as usize as int));
    assert(c as usize as int == c);
    assert(s.visits[c].parent == Some(m as usize));
    if path.len() > 2 {
        let pre = path.drop_last();
        assert forall|i: int| 0 <= i < pre.len() implies 0 <= #[trigger] pre[i] < kids.len() by {
            assert(pre[i] == path[i]);
        }
        assert forall|i: int| 0 <= i < pre.len() - 1 implies kids[#[trigger] pre[i]].contains(pre[i + 1] as usize) by {
            assert(pre[i] == path[i] && pre[i + 1] == path[i + 1]);
        }
        lemma_chain_ancestor(s, kids, v, m, pre);
    }
}

/// For a coherent editor, the branches below `v` along parent links (those
/// whose state a collapse clears, see `collapse_subtree_state`) are exactly
/// those reached from `v` through the children index.
pub proof fn law_descendants_by_children(s: Scan, kids: Seq<Seq<usize>>, v: int, c: int)
    requires
        scan_wf(s),
        kids_exact(s, kids),
        0 <= c < s.visits.len(),
    ensures
        is_ancestor(s, v, c) <==> exists|path: Seq<int>| #[trigger] kid_chain(kids, v, c, path),
{
    if is_ancestor(s, v, c) {
        let path = lemma_ancestor_chain(s, kids, v, c);
    }
    if exists|path: Seq<int>| #[trigger] kid_chain(kids, v, c, path) {
        let path = choose|path: Seq<int>| #[trigger] kid_chain(kids, v, c, path);
        lemma_chain_ancestor(s, kids, v, c, path);
    }
}

impl Editor {
    /// Internal coherence: the children index matches the scan, sets are
    /// proper sets.
    pub open spec fn wf(self) -> bool {
        &&& match self.scan {
            Some(s) => scan_wf(s) && kids_exact(s, kid_seqs(self.kids@)),
            None => true,
        }
        &&& self.expanded.wf()
        &&& self.expanded_dirs.wf()
        &&& self.content_expanded.wf()
        &&& self.entry_multi.wf()
    }

    /// The rows the structure tree shows for the current state.
    pub open spec fn rows_ok(self) -> bool {
        match self.scan {
            Some(s) => if s.root_index is Some {
                rows_match(self.rows@, 0, tree_rows(s, kid_seqs(self.kids@), 0, self.expanded@), s, kid_seqs(self.kids@), self.expanded@)
            } else {
                self.rows@.len() == 0
            },
            None => self.rows@.len() == 0,
        }
    }

    /// A closed editor.
    pub fn new() -> (r: Editor)
        ensures
            r.wf(),
            r.rows_ok(),
            r.scan is None,
            r.kids@.len() == 0,
            r.rows@.len() == 0,
            r.selected is None,
            r.selected_entry_path is None,
            r.entry_anchor is None,
            r.expanded@.is_empty(),
            r.expanded_dirs@.is_empty(),
            r.content_expanded@.is_empty(),
            r.entry_multi@.is_empty(),
            r.scan_gen == 0,
    {
        Editor {
            scan: None,
            kids: Vec::new(),
            rows: Vec::new(),
            expanded: KeySet::new(),
            selected: None,
            selected_entry_path: None,
            expanded_dirs: KeySet::new(),
            content_expanded: KeySet::new(),
            entry_multi: KeySet::new(),
            entry_anchor: None,
            scan_gen: 0,
        }
    }

    /// Rebuilds the visible rows from the expanded set.
    pub fn rebuild(&mut self)
        requires
            old(self).wf(),
        ensures
            final(self).wf(),
            final(self).rows_ok(),
            final(self).scan == old(self).scan,
            final(self).kids == old(self).kids,
            final(self).expanded == old(self).expanded,
            final(self).selected == old(self).selected,
            final(self).selected_entry_path == old(self).selected_entry_path,
            final(self).expanded_dirs == old(self).expanded_dirs,
            final(self).content_expanded == old(self).content_expanded,
            final(self).entry_multi == old(self).entry_multi,
            final(self).entry_anchor == old(self).entry_anchor,
            final(self).scan_gen == old(self).scan_gen,
    {
        let mut rows: Vec<VisibleRow> = Vec::new();
        match &self.scan {
            Some(s) => {
                if s.root_index.is_some() {
                    dfs_rows(s, &self.kids, 0, &self.expanded, &mut rows);
                }
            },
            None => {},
        }
        self.rows = rows;
    }

    /// The scan index of an identity key.
    pub fn visit_idx(&self, key: &String) -> (r: Option<usize>)
        ensures
            match self.scan {
                Some(s) => match r {
                    Some(i) => index_of_key(s, key@) == Some(i as int),
                    None => index_of_key(s, key@) is None,
                },
                None => r is None,
            },
    {
        match &self.scan {
            Some(s) => {
                let mut i = s.visits.len();
                while i > 0
                    invariant
                        self.scan == Some(*s),
                        i <= s.visits.len(),
                        forall|j: int| i <= j < s.visits.len() ==> s.visits[j].rel@ != key@,
                    decreases i,
                {
                    if s.visits[i - 1].rel == *key {
                        let ghost w = choose|w: int| 0 <= w < s.visits.len() && s.visits[w].rel@ == key@
                            && forall|j: int| w < j < s.visits.len() ==> s.visits[j].rel@ != key@;
                        assert(w == i - 1) by {
                            if w < i - 1 {
                                assert(s.visits[i - 1].rel@ == key@);
                            }
                        }
                        return Some(i - 1);
                    }
                    i -= 1;
                }
                None
            },
            None => None,
        }
    }

    /// The scan index of the active branch.
    pub fn selected_idx_in_visits(&self) -> (r: Option<usize>)
        ensures
            r == match (self.scan, opt_view(self.selected)) {
                (Some(s), Some(k)) => match index_of_key(s, k) {
                    Some(i) => Some(i as usize),
                    None => None,
                },
                _ => None,
            },
    {
        match &self.selected {
            Some(k) => self.visit_idx(k),
            None => None,
        }
    }

    /// Activates branch `visit`. The content selection belongs to one
    /// branch: it is cleared only when the active branch changes.
    pub fn select_visit(&mut self, visit: usize)
        requires
            old(self).wf(),
        ensures
            final(self).wf(),
            opt_view(final(self).selected) == match old(self).scan {
                Some(s) => Some(key_of(s, visit as int)),
                None => None,
            },
            final(self).selected_entry_path is None,
            opt_view(final(self).selected) != opt_view(old(self).selected) ==> final(self).entry_multi@.is_empty() && final(self).entry_anchor is None,
            opt_view(final(self).selected) == opt_view(old(self).selected) ==> final(self).entry_multi == old(self).entry_multi && final(self).entry_anchor == old(self).entry_anchor,
            final(self).scan == old(self).scan,
            final(self).kids == old(self).kids,
            final(self).rows == old(self).rows,
            final(self).expanded == old(self).expanded,
            final(self).expanded_dirs == old(self).expanded_dirs,
            final(self).content_expanded == old(self).content_expanded,
            final(self).scan_gen == old(self).scan_gen,
    {
        let new_key: Option<String> = match &self.scan {
            Some(s) => Some(if visit < s.visits.len() { s.visits[visit].rel.clone() } else { String::new() }),
            None => None,
        };
        let changed = match (&self.selected, &new_key) {
            (Some(a), Some(b)) => *a != *b,
            (None, None) => false,
            _ => true,
        };
        self.selected = new_key;
        self.selected_entry_path = None;
        if changed {
            self.entry_multi.clear();
            self.entry_anchor = None;
        }
    }

    /// Whether branch `a` is a proper ancestor of `c`.
    fn ancestor_exec(s: &Scan, a: usize, c: usize) -> (r: bool)
        requires
            scan_wf(*s),
            c < s.visits.len(),
        ensures
            r == is_ancestor(*s, a as int, c as int),
        decreases c,
    {
        match s.visits[c].parent {
            Some(p) => {
                if p == a {
                    true
                } else {
                    Self::ancestor_exec(s, a, p)
                }
            },
            None => false,
        }
    }

    /// State cleanup when branch `visit` is collapsed: every proper
    /// descendant loses its expanded and content-expanded state; when the
    /// active branch lies in the collapsed subtree (the branch itself
    /// included), the collapsed branch becomes active and the content
    /// selection is cleared.
    pub fn collapse_subtree_state(&mut self, visit: usize)
        requires
            old(self).wf(),
        ensures
            final(self).wf(),
            final(self).scan == old(self).scan,
            final(self).kids == old(self).kids,
            final(self).rows == old(self).rows,
            final(self).expanded_dirs == old(self).expanded_dirs,
            final(self).scan_gen == old(self).scan_gen,
            match old(self).scan {
                None => *final(self) == *old(self),
                Some(s) => {
                    &&& final(self).expanded@ == old(self).expanded@.difference(descendant_keys(s, visit as int))
                    &&& final(self).content_expanded@ == old(self).content_expanded@.difference(descendant_keys(s, visit as int))
                    &&& if selection_in_subtree(s, visit as int, opt_view(old(self).selected)) {
                        &&& opt_view(final(self).selected) == Some(key_of(s, visit as int))
                        &&& final(self).selected_entry_path is None
                        &&& final(self).entry_multi@.is_empty()
                        &&& final(self).entry_anchor is None
                    } else {
                        &&& final(self).selected == old(self).selected
                        &&& final(self).selected_entry_path == old(self).selected_entry_path
                        &&& final(self).entry_multi == old(self).entry_multi
                        &&& final(self).entry_anchor == old(self).entry_anchor
                    }
                },
            },
    {
        let n = match &self.scan {
            Some(s) => s.visits.len(),
            None => {
                return;
            },
        };
        let ghost s0 = self.scan.unwrap();
        let ghost sel0 = opt_view(self.selected);
        let ghost exp0 = self.expanded@;
        let ghost con0 = self.content_expanded@;
        let mut in_subtree = false;
        match &self.selected {
            Some(k) => {
                let own = match &self.scan {
                    Some(s) => if visit < s.visits.len() { s.visits[visit].rel.clone() } else { String::new() },
                    None => String::new(),
                };
                in_subtree = *k == own;
            },
            None => {},
        }
        let mut c: usize = 0;
        assert(exp0.difference(descendant_keys_below(s0, visit as int, 0)) =~= exp0);
        assert(con0.difference(descendant_keys_below(s0, visit as int, 0)) =~= con0);
        while c < n
            invariant
                self.wf(),
                self.scan == Some(s0),
                n == s0.visits.len(),
                c <= n,
                self.expanded@ == exp0.difference(descendant_keys_below(s0, visit as int, c as int)),
                self.content_expanded@ == con0.difference(descendant_keys_below(s0, visit as int, c as int)),
                opt_view(self.selected) == sel0,
                in_subtree == match sel0 {
                    Some(k) => key_of(s0, visit as int) == k || exists|d: int| 0 <= d < c && is_ancestor(s0, visit as int, d) && #[trigger] s0.visits[d].rel@ == k,
                    None => false,
                },
                self.kids == old(self).kids,
                self.rows == old(self).rows,
                self.expanded_dirs == old(self).expanded_dirs,
                self.scan_gen == old(self).scan_gen,
                self.selected == old(self).selected,
                self.selected_entry_path == old(self).selected_entry_path,
                self.entry_multi == old(self).entry_multi,
                self.entry_anchor == old(self).entry_anchor,
            decreases n - c,
        {
            let (desc, key) = match &self.scan {
                Some(s) => (Self::ancestor_exec(s, visit, c), s.visits[c].rel.clone()),
                None => (false, String::new()),
            };
            let ghost below = descendant_keys_below(s0, visit as int, c as int);
            let ghost below1 = descendant_keys_below(s0, visit as int, c + 1);
            if desc {
                assert(below1 =~= below.insert(key@)) by {
                    assert forall|k: Seq<char>| below1.contains(k) implies below.insert(key@).contains(k) by {
                        let d = choose|d: int| 0 <= d < c + 1 && d < s0.visits.len() && is_ancestor(s0, visit as int, d) && #[trigger] s0.visits[d].rel@ == k;
                        if d < c {
                            assert(below.contains(k));
                        }
                    }
                    assert(below1.contains(key@)) by {
                        assert(s0.visits[c as int].rel@ == key@);
                    }
                    assert forall|k: Seq<char>| below.contains(k) implies below1.contains(k) by {
                        let d = choose|d: int| 0 <= d < c && d < s0.visits.len() && is_ancestor(s0, visit as int, d) && #[trigger] s0.visits[d].rel@ == k;
                    }
                }
                self.expanded.remove(&key);
                self.content_expanded.remove(&key);
                assert(self.expanded@ =~= exp0.difference(below1));
                assert(self.content_expanded@ =~= con0.difference(below1));
                match &self.selected {
                    Some(k) => {
                        if *k == key {
                            in_subtree = true;
                        }
                    },
                    None => {},
                }
            } else {
                assert(below1 =~= below) by {
                    assert forall|k: Seq<char>| below1.contains(k) implies below.contains(k) by {
                        let d = choose|d: int| 0 <= d < c + 1 && d < s0.visits.len() && is_ancestor(s0, visit as int, d) && #[trigger] s0.visits[d].rel@ == k;
                        assert(d != c);
                    }
                    assert forall|k: Seq<char>| below.contains(k) implies below1.contains(k) by {
                        let d = choose|d: int| 0 <= d < c && d < s0.visits.len() && is_ancestor(s0, visit as int, d) && #[trigger] s0.visits[d].rel@ == k;
                    }
                }
            }
            proof {
                match sel0 {
                    Some(k) => {
                        if exists|d: int| 0 <= d < c + 1 && is_ancestor(s0, visit as int, d) && #[trigger] s0.visits[d].rel@ == k {
                            let d = choose|d: int| 0 <= d < c + 1 && is_ancestor(s0, visit as int, d) && #[trigger] s0.visits[d].rel@ == k;
                            if d == c {
                                assert(key@ == k);
                            }
                        }
                    },
                    None => {},
                }
            }
            c += 1;
        }
        assert(descendant_keys_below(s0, visit as int, n as int) =~= descendant_keys(s0, visit as int));
        if in_subtree {
            let own = match &self.scan {
                Some(s) => if visit < s.visits.len() { s.visits[visit].rel.clone() } else { String::new() },
                None => String::new(),
            };
            self.selected = Some(own);
            self.selected_entry_path = None;
            self.entry_multi.clear();
            self.entry_anchor = None;
        }
    }
}

/// The key of the first branch of a scan, if any.
pub open spec fn first_key(s: Scan) -> Option<Seq<char>> {
    if s.visits.len() > 0 { Some(s.visits[0].rel@) } else { None }
}

impl Editor {
    /// Takes a freshly scanned bundle: only the first branch is expanded and
    /// active, content panels and the content selection are reset.
    pub fn open_scan(&mut self, scan: Scan)
        requires
            old(self).wf(),
            scan_wf(scan),
            old(self).scan_gen < u64::MAX,
        ensures
            final(self).wf(),
            final(self).rows_ok(),
            final(self).scan == Some(scan),
            final(self).expanded@ == match first_key(scan) {
                Some(k) => set![k],
                None => Set::<Seq<char>>::empty(),
            },
            opt_view(final(self).selected) == first_key(scan),
            final(self).selected_entry_path is None,
            final(self).content_expanded@.is_empty(),
            final(self).entry_multi@.is_empty(),
            final(self).entry_anchor is None,
            final(self).expanded_dirs == old(self).expanded_dirs,
            final(self).scan_gen == old(self).scan_gen + 1,
    {
        let mut expanded = KeySet::new();
        if scan.visits.len() > 0 {
            expanded.insert(&scan.visits[0].rel);
            self.selected = Some(scan.visits[0].rel.clone());
        } else {
            self.selected = None;
        }
        assert(expanded@ =~= match first_key(scan) {
            Some(k) => set![k],
            None => Set::<Seq<char>>::empty(),
        });
        self.expanded = expanded;
        self.kids = children_index(&scan);
        self.scan = Some(scan);
        self.selected_entry_path = None;
        self.content_expanded.clear();
        self.entry_multi.clear();
        self.entry_anchor = None;
        self.scan_gen = self.scan_gen + 1;
        self.rebuild();
    }

    /// Takes a rescan of the open bundle. `alive` lists the selected entry
    /// paths still present on disk: the content selection keeps only those
    /// (and is cleared when no branch was active). An active branch that
    /// vanished falls back to the first branch.
    pub fn rescan_with(&mut self, scan: Scan, alive: &Vec<String>) -> (r: Result<(), String>)
        requires
            old(self).wf(),
            scan_wf(scan),
            old(self).scan_gen < u64::MAX,
        ensures
            final(self).wf(),
            old(self).scan is None ==> r is Err && *final(self) == *old(self),
            old(self).scan is Some ==> {
                &&& r is Ok
                &&& final(self).rows_ok()
                &&& final(self).scan == Some(scan)
                &&& final(self).entry_multi@ == if old(self).selected_idx_in_visits_spec() is Some {
                    old(self).entry_multi@.intersect(str_set(alive@))
                } else {
                    Set::<Seq<char>>::empty()
                }
                &&& opt_view(final(self).selected) == match opt_view(old(self).selected) {
                    Some(k) => if index_of_key(scan, k) is Some { Some(k) } else { first_key(scan) },
                    None => None,
                }
                &&& final(self).expanded == old(self).expanded
                &&& final(self).content_expanded == old(self).content_expanded
                &&& final(self).expanded_dirs == old(self).expanded_dirs
                &&& final(self).selected_entry_path == old(self).selected_entry_path
                &&& final(self).entry_anchor == old(self).entry_anchor
                &&& final(self).scan_gen == old(self).scan_gen + 1
            },
    {
        if self.scan.is_none() {
            return Err("未打开 bundle".to_owned());
        }
        let kids = children_index(&scan);
        let had_branch = self.selected_idx_in_visits().is_some();
        if had_branch {
            self.entry_multi.retain_listed(alive);
        } else {
            self.entry_multi.clear();
        }
        self.kids = kids;
        self.scan = Some(scan);
        let keep_selection = match &self.selected {
            Some(k) => self.visit_idx(k).is_some(),
            None => true,
        };
        if !keep_selection {
            self.selected = match &self.scan {
                Some(s) => if s.visits.len() > 0 { Some(s.visits[0].rel.clone()) } else { None },
                None => None,
            };
        }
        self.scan_gen = self.scan_gen + 1;
        self.rebuild();
        Ok(())
    }

    /// Spec twin of `selected_idx_in_visits`.
    pub open spec fn selected_idx_in_visits_spec(self) -> Option<usize> {
        match (self.scan, opt_view(self.selected)) {
            (Some(s), Some(k)) => match index_of_key(s, k) {
                Some(i) => Some(i as usize),
                None => None,
            },
            _ => None,
        }
    }
}

/// The toggle key of branch `visit`: its identity key when the editor is
/// open and the key is not empty.
pub open spec fn toggle_key(scan: Option<Scan>, visit: int) -> Option<Seq<char>> {
    match scan {
        Some(s) => if key_of(s, visit).len() > 0 { Some(key_of(s, visit)) } else { None },
        None => None,
    }
}

impl Editor {
    fn toggle_key_exec(&self, visit: usize) -> (r: Option<String>)
        ensures
            opt_view(r) == toggle_key(self.scan, visit as int),
    {
        match &self.scan {
            Some(s) => {
                if visit < s.visits.len() && !s.visits[visit].rel.as_str().is_empty() {
                    Some(s.visits[visit].rel.clone())
                } else {
                    None
                }
            },
            None => None,
        }
    }

    /// Expands or collapses the child branches of `visit`; collapsing also
    /// clears the state of the hidden subtree (see `collapse_subtree_state`).
    pub fn toggle_subtree(&mut self, visit: usize)
        requires
            old(self).wf(),
        ensures
            final(self).wf(),
            final(self).rows_ok(),
            final(self).scan == old(self).scan,
            final(self).kids == old(self).kids,
            match toggle_key(old(self).scan, visit as int) {
                None => final(self).expanded == old(self).expanded && final(self).selected == old(self).selected
                    && final(self).entry_multi == old(self).entry_multi,
                Some(k) => if old(self).expanded@.contains(k) {
                    &&& final(self).expanded@ == old(self).expanded@.remove(k).difference(descendant_keys(old(self).scan.unwrap(), visit as int))
                    &&& final(self).content_expanded@ == old(self).content_expanded@.difference(descendant_keys(old(self).scan.unwrap(), visit as int))
                    &&& selection_in_subtree(old(self).scan.unwrap(), visit as int, opt_view(old(self).selected))
                        ==> opt_view(final(self).selected) == Some(k) && final(self).entry_multi@.is_empty()
                    &&& !selection_in_subtree(old(self).scan.unwrap(), visit as int, opt_view(old(self).selected))
                        ==> final(self).selected == old(self).selected && final(self).entry_multi == old(self).entry_multi
                } else {
                    &&& final(self).expanded@ == old(self).expanded@.insert(k)
                    &&& final(self).content_expanded == old(self).content_expanded
                    &&& final(self).selected == old(self).selected
                    &&& final(self).entry_multi == old(self).entry_multi
                },
            },
    {
        let key = self.toggle_key_exec(visit);
        match key {
            Some(k) => {
                if self.expanded.contains(&k) {
                    self.expanded.remove(&k);
                    self.collapse_subtree_state(visit);
                } else {
                    self.expanded.insert(&k);
                }
            },
            None => {},
        }
        self.rebuild();
    }

    /// Opens or closes the content panel of `visit` in the mind map.
    pub fn toggle_branch_content(&mut self, visit: usize)
        requires
            old(self).wf(),
        ensures
            final(self).wf(),
            final(self).content_expanded@ == match toggle_key(old(self).scan, visit as int) {
                None => old(self).content_expanded@,
                Some(k) => toggled(old(self).content_expanded@, k),
            },
            final(self).scan == old(self).scan,
            final(self).kids == old(self).kids,
            final(self).rows == old(self).rows,
            final(self).expanded == old(self).expanded,
            final(self).selected == old(self).selected,
            final(self).selected_entry_path == old(self).selected_entry_path,
            final(self).expanded_dirs == old(self).expanded_dirs,
            final(self).entry_multi == old(self).entry_multi,
            final(self).entry_anchor == old(self).entry_anchor,
            final(self).scan_gen == old(self).scan_gen,
    {
        match self.toggle_key_exec(visit) {
            Some(k) => {
                if self.content_expanded.contains(&k) {
                    self.content_expanded.remove(&k);
                } else {
                    self.content_expanded.insert(&k);
                }
            },
            None => {},
        }
    }

    /// Identity keys of every branch, in scan order.
    pub fn all_branch_keys(&self) -> (r: Vec<String>)
        ensures
            match self.scan {
                Some(s) => r@.len() == s.visits.len() && forall|i: int| 0 <= i < r@.len() ==> #[trigger] r@[i]@ == s.visits[i].rel@,
                None => r@.len() == 0,
            },
    {
        let mut out: Vec<String> = Vec::new();
        match &self.scan {
            Some(s) => {
                let mut i: usize = 0;
                while i < s.visits.len()
                    invariant
                        i <= s.visits.len(),
                        out@.len() == i,
                        forall|j: int| 0 <= j < i ==> #[trigger] out@[j]@ == s.visits[j].rel@,
                    decreases s.visits.len() - i,
                {
                    out.push(s.visits[i].rel.clone());
                    i += 1;
                }
            },
            None => {},
        }
        out
    }

    /// Identity keys of the branches currently drawn (the visible rows).
    pub fn visible_branch_keys(&self) -> (r: Vec<String>)
        ensures
            match self.scan {
                Some(s) => r@ == visible_keys_of(s, self.rows@, self.rows@.len() as int),
                None => r@.len() == 0,
            },
    {
        let mut out: Vec<String> = Vec::new();
        match &self.scan {
            Some(s) => {
                let mut i: usize = 0;
                while i < self.rows.len()
                    invariant
                        self.scan == Some(*s),
                        i <= self.rows.len(),
                        out@ == visible_keys_of(*s, self.rows@, i as int),
                    decreases self.rows.len() - i,
                {
                    let v = self.rows[i].visit;
                    if v < s.visits.len() {
                        out.push(s.visits[v].rel.clone());
                    }
                    i += 1;
                }
            },
            None => {},
        }
        out
    }

    /// Whether branch `visit` is the active one (a node's selection mark).
    pub fn node_is_selected(&self, visit: usize) -> (r: bool)
        ensures
            r == match (self.scan, opt_view(self.selected)) {
                (Some(s), Some(k)) => key_of(s, visit as int) == k,
                _ => false,
            },
    {
        match (&self.selected, &self.scan) {
            (Some(k), Some(s)) => {
                if visit < s.visits.len() {
                    s.visits[visit].rel == *k
                } else {
                    let empty = k.as_str().is_empty();
                    assert(empty == (k@ =~= Seq::<char>::empty()));
                    empty
                }
            },
            _ => false,
        }
    }

    /// The branch a drag starts from: the active branch's index, or -1.
    pub fn drag_source_visit(&self) -> (r: i32)
        ensures
            r == match self.selected_idx_in_visits_spec() {
                Some(i) => i as i32,
                None => -1i32,
            },
    {
        match self.selected_idx_in_visits() {
            Some(i) => i as i32,
            None => -1,
        }
    }
}

/// Keys of the first `n` rows' branches (rows outside the scan skipped).
pub open spec fn visible_keys_of(s: Scan, rows: Seq<VisibleRow>, n: int) -> Seq<String>
    decreases n,
{
    if n <= 0 || n > rows.len() {
        Seq::<String>::empty()
    } else {
        let before = visible_keys_of(s, rows, n - 1);
        let v = rows[n - 1].visit;
        if v < s.visits.len() {
            before.push(s.visits[v as int].rel)
        } else {
            before
        }
    }
}

} // verus!
