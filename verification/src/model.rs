//! The bundle as the editor sees it: the scanned branches (`Visit`) with their
//! parsed `._meta` (`Meta`, `Entry`), and string-keyed sets of editor state.
use vstd::prelude::*;

verus! {

/// One registered item of a branch's `entries[]`.
pub struct Entry {
    /// Path relative to the branch directory.
    pub path: String,
    /// `payload`, `asset`, `dir`, `node` or `branch`.
    pub role: String,
    pub id: Option<String>,
    pub branch_type: Option<String>,
    pub title: Option<String>,
    pub note: Option<String>,
    /// Byte size of a file entry.
    pub size: Option<i64>,
    /// Number of items of a folder entry.
    pub count: Option<i64>,
    /// SHA-256 digest (hex) of a file entry's bytes.
    pub sha256: Option<String>,
    /// Explicit position in its sequence (content items, or child branches).
    pub order: Option<i64>,
}

/// The parsed `._meta` of a branch.
pub struct Meta {
    pub id: Option<String>,
    /// The branch is the bundle's root (`kind = "root"`).
    pub is_root: bool,
    pub branch_type: Option<String>,
    pub title: Option<String>,
    pub entries: Vec<Entry>,
}

/// One branch directory found by the scan.
pub struct Visit {
    /// Index of the parent branch in the scan, `None` for the root.
    pub parent: Option<usize>,
    pub depth: usize,
    /// Path of the branch relative to the bundle root: its identity key.
    pub rel: String,
    /// Absolute directory of the branch, one component per item.
    pub dir: Vec<String>,
    /// `None` when the branch's `._meta` could not be parsed.
    pub meta: Option<Meta>,
}

/// The result of scanning a bundle: its branches, parents before children.
pub struct Scan {
    pub visits: Vec<Visit>,
    pub root_index: Option<usize>,
}

/// Branch registrations (`node` / `branch`) as opposed to content.
pub open spec fn is_branch_role(role: Seq<char>) -> bool {
    role == "node"@ || role == "branch"@
}

pub open spec fn entry_is_branch(e: Entry) -> bool {
    is_branch_role(e.role@)
}

/// Whether a role names a branch registration.
pub fn is_branch_role_exec(role: &String) -> (r: bool)
    ensures
        r == is_branch_role(role@),
{
    let node = "node".to_owned();
    let branch = "branch".to_owned();
    proof {
        reveal_strlit("node");
        reveal_strlit("branch");
    }
    *role == node || *role == branch
}

/// The scan's shape: parents come before their children, depths grow by
/// one along each parent link, the root has no parent, and a scan with a
/// root is not empty.
pub open spec fn scan_wf(s: Scan) -> bool {
    &&& s.visits.len() < usize::MAX
    &&& (s.root_index is Some ==> s.visits.len() > 0)
    &&& forall|i: int| #![trigger s.visits[i]] 0 <= i < s.visits.len() ==> match s.visits[i].parent {
        Some(p) => p < i && s.visits[i].depth == s.visits[p as int].depth + 1,
        None => s.visits[i].depth == 0,
    }
}

/// The last directory component of a branch (its directory name).
pub open spec fn dir_name(v: Visit) -> Option<Seq<char>> {
    if v.dir.len() > 0 {
        Some(v.dir@.last()@)
    } else {
        None
    }
}

/// `a` is a proper ancestor of `c` along parent links.
pub open spec fn is_ancestor(s: Scan, a: int, c: int) -> bool
    decreases c,
{
    if 0 <= c < s.visits.len() {
        match s.visits[c].parent {
            Some(p) => if p < c { p == a || is_ancestor(s, a, p as int) } else { false },
            None => false,
        }
    } else {
        false
    }
}

/// A copy of an optional string.
pub fn copy_opt(o: &Option<String>) -> (r: Option<String>)
    ensures
        r == *o,
{
    match o {
        Some(s) => Some(s.clone()),
        None => None,
    }
}

impl Entry {
    /// A field-by-field copy.
    pub fn copy(&self) -> (r: Entry)
        ensures
            r == *self,
    {
        Entry {
            path: self.path.clone(),
            role: self.role.clone(),
            id: copy_opt(&self.id),
            branch_type: copy_opt(&self.branch_type),
            title: copy_opt(&self.title),
            note: copy_opt(&self.note),
            size: self.size,
            count: self.count,
            sha256: copy_opt(&self.sha256),
            order: self.order,
        }
    }

    /// Whether the entry registers a child branch.
    pub fn is_branch(&self) -> (r: bool)
        ensures
            r == entry_is_branch(*self),
    {
        is_branch_role_exec(&self.role)
    }
}

/// A set of strings kept as a list without repeats (insertion order).
pub struct KeySet {
    pub items: Vec<String>,
}

/// Some string among the first `n` of `v` equals `x`.
pub open spec fn prefix_has(v: Seq<String>, n: int, x: Seq<char>) -> bool {
    exists|j: int| 0 <= j < n && j < v.len() && #[trigger] v[j]@ == x
}

/// `s` with `k` flipped: removed when present, added when absent.
pub open spec fn toggled(s: Set<Seq<char>>, k: Seq<char>) -> Set<Seq<char>> {
    if s.contains(k) { s.remove(k) } else { s.insert(k) }
}

/// The strings of a list, as a set.
pub open spec fn str_set(v: Seq<String>) -> Set<Seq<char>> {
    Set::new(|k: Seq<char>| exists|i: int| 0 <= i < v.len() && #[trigger] v[i]@ == k)
}

/// Whether `k` is among `v`.
pub fn list_contains(v: &Vec<String>, k: &String) -> (r: bool)
    ensures
        r == str_set(v@).contains(k@),
{
    let mut j: usize = 0;
    while j < v.len()
        invariant
            j <= v.len(),
            forall|t: int| 0 <= t < j ==> v@[t]@ != k@,
        decreases v.len() - j,
    {
        if v[j] == *k {
            assert(v@[j as int]@ == k@);
            return true;
        }
        j += 1;
    }
    false
}

/// The strings of a list.
pub open spec fn key_seq(v: Seq<String>) -> Seq<Seq<char>> {
    Seq::new(v.len(), |i: int| v[i]@)
}

impl KeySet {
    pub open spec fn wf(self) -> bool {
        forall|i: int, j: int| 0 <= i < j < self.items.len() ==> #[trigger] self.items[i]@ != #[trigger] self.items[j]@
    }

    pub open spec fn has(self, k: Seq<char>) -> bool {
        exists|i: int| 0 <= i < self.items.len() && #[trigger] self.items[i]@ == k
    }

    pub open spec fn view(self) -> Set<Seq<char>> {
        Set::new(|k: Seq<char>| self.has(k))
    }

    /// The empty set.
    pub fn new() -> (r: KeySet)
        ensures
            r.wf(),
            r@ == Set::<Seq<char>>::empty(),
    {
        let r = KeySet { items: Vec::new() };
        assert(r@ =~= Set::<Seq<char>>::empty());
        r
    }

    /// Membership.
    pub fn contains(&self, k: &String) -> (r: bool)
        ensures
            r == self@.contains(k@),
    {
        let mut i: usize = 0;
        while i < self.items.len()
            invariant
                i <= self.items.len(),
                forall|j: int| 0 <= j < i ==> self.items[j]@ != k@,
            decreases self.items.len() - i,
        {
            if self.items[i] == *k {
                assert(self.has(k@));
                return true;
            }
            i += 1;
        }
        false
    }

    /// Adds a key (no effect when present).
    pub fn insert(&mut self, k: &String)
        requires
            old(self).wf(),
        ensures
            final(self).wf(),
            final(self)@ == old(self)@.insert(k@),
    {
        if self.contains(k) {
            assert(self@.insert(k@) =~= self@);
            return;
        }
        let ghost before = *self;
        self.items.push(k.clone());
        assert forall|x: Seq<char>| self.has(x) <==> (before.has(x) || x == k@) by {
            if self.has(x) {
                let i = choose|i: int| 0 <= i < self.items.len() && #[trigger] self.items[i]@ == x;
                if i < before.items.len() {
                    assert(before.items[i]@ == x);
                }
            }
            if before.has(x) {
                let i = choose|i: int| 0 <= i < before.items.len() && #[trigger] before.items[i]@ == x;
                assert(self.items[i]@ == x);
            }
            if x == k@ {
                assert(self.items[self.items.len() - 1]@ == x);
            }
        }
        assert(self@ =~= before@.insert(k@));
        assert forall|i: int, j: int| 0 <= i < j < self.items.len() implies #[trigger] self.items[i]@ != #[trigger] self.items[j]@ by {
            if j == self.items.len() - 1 {
                assert(before.items[i]@ == self.items[i]@);
            } else {
                assert(before.items[i]@ != before.items[j]@);
            }
        }
    }

    /// Removes a key (no effect when absent).
    pub fn remove(&mut self, k: &String)
        requires
            old(self).wf(),
        ensures
            final(self).wf(),
            final(self)@ == old(self)@.remove(k@),
    {
        let ghost before = *self;
        let mut kept: Vec<String> = Vec::new();
        let mut i: usize = 0;
        while i < self.items.len()
            invariant
                i <= self.items.len(),
                *self == before,
                before.wf(),
                forall|a: int, b: int| 0 <= a < b < kept.len() ==> #[trigger] kept[a]@ != #[trigger] kept[b]@,
                forall|x: Seq<char>| #[trigger] prefix_has(kept@, kept.len() as int, x) <==> (x != k@ && prefix_has(before.items@, i as int, x)),
            decreases self.items.len() - i,
        {
            if self.items[i] != *k {
                let ghost prev = kept@;
                assert forall|x: Seq<char>| #[trigger] prefix_has(prev, prev.len() as int, x) <==> (x != k@ && prefix_has(before.items@, i as int, x)) by {
                    assert(prefix_has(kept@, kept.len() as int, x) == prefix_has(prev, prev.len() as int, x));
                }
                kept.push(self.items[i].clone());
                assert forall|x: Seq<char>| #[trigger] prefix_has(kept@, kept.len() as int, x) <==> (x != k@ && prefix_has(before.items@, i + 1, x)) by {
                    if prefix_has(kept@, kept.len() as int, x) {
                        let j = choose|j: int| 0 <= j < kept.len() && j < kept@.len() && #[trigger] kept@[j]@ == x;
                        if j < prev.len() {
                            assert(prev[j]@ == x);
                            assert(prefix_has(prev, prev.len() as int, x));
                        } else {
                            assert(before.items@[i as int]@ == x);
                        }
                    }
                    if x != k@ && prefix_has(before.items@, i + 1, x) {
                        let j = choose|j: int| 0 <= j < i + 1 && j < before.items@.len() && #[trigger] before.items@[j]@ == x;
                        if j < i {
                            assert(prefix_has(before.items@, i as int, x));
                            assert(prefix_has(prev, prev.len() as int, x));
                            let m = choose|m: int| 0 <= m < prev.len() && m < prev.len() && #[trigger] prev[m]@ == x;
                            assert(kept@[m]@ == x);
                        } else {
                            assert(kept@[kept.len() - 1]@ == x);
                        }
                    }
                }
                assert forall|a: int, b: int| 0 <= a < b < kept.len() implies #[trigger] kept[a]@ != #[trigger] kept[b]@ by {
                    if b == kept.len() - 1 {
                        if kept[a]@ == kept[b]@ {
                            assert(prev[a]@ == kept[a]@);
                            assert(prefix_has(prev, prev.len() as int, kept[a]@));
                            let j = choose|j: int| 0 <= j < i && j < before.items@.len() && #[trigger] before.items@[j]@ == kept[a]@;
                            assert(before.items[j]@ != before.items[i as int]@);
                        }
                    } else {
                        assert(prev[a]@ != prev[b]@);
                    }
                }
            } else {
                assert forall|x: Seq<char>| #[trigger] prefix_has(kept@, kept.len() as int, x) <==> (x != k@ && prefix_has(before.items@, i + 1, x)) by {
                    if x != k@ && prefix_has(before.items@, i + 1, x) {
                        let j = choose|j: int| 0 <= j < i + 1 && j < before.items@.len() && #[trigger] before.items@[j]@ == x;
                        assert(j < i);
                        assert(prefix_has(before.items@, i as int, x));
                    }
                }
            }
            i += 1;
        }
        self.items = kept;
        assert forall|x: Seq<char>| self.has(x) <==> (before.has(x) && x != k@) by {
            if before.has(x) && x != k@ {
                let j = choose|j: int| 0 <= j < before.items.len() && #[trigger] before.items[j]@ == x;
                assert(prefix_has(before.items@, before.items.len() as int, x));
                assert(prefix_has(self.items@, self.items.len() as int, x));
            }
            if self.has(x) {
                let j = choose|j: int| 0 <= j < self.items.len() && #[trigger] self.items[j]@ == x;
                assert(prefix_has(self.items@, self.items.len() as int, x));
            }
        }
        assert(self@ =~= before@.remove(k@));
    }

    /// Keeps only the keys listed in `keep`.
    pub fn retain_listed(&mut self, keep: &Vec<String>)
        requires
            old(self).wf(),
        ensures
            final(self).wf(),
            final(self)@ == old(self)@.intersect(str_set(keep@)),
    {
        let ghost before = *self;
        let mut kept: Vec<String> = Vec::new();
        let mut i: usize = 0;
        while i < self.items.len()
            invariant
                i <= self.items.len(),
                *self == before,
                before.wf(),
                forall|a: int, b: int| 0 <= a < b < kept.len() ==> #[trigger] kept[a]@ != #[trigger] kept[b]@,
                forall|x: Seq<char>| #[trigger] prefix_has(kept@, kept.len() as int, x) <==> (str_set(keep@).contains(x) && prefix_has(before.items@, i as int, x)),
            decreases self.items.len() - i,
        {
            let ghost prev = kept@;
            assert forall|x: Seq<char>| #[trigger] prefix_has(prev, prev.len() as int, x) <==> (str_set(keep@).contains(x) && prefix_has(before.items@, i as int, x)) by {
                assert(prefix_has(kept@, kept.len() as int, x) == prefix_has(prev, prev.len() as int, x));
            }
            let listed = list_contains(keep, &self.items[i]);
            if listed {
                kept.push(self.items[i].clone());
                assert forall|x: Seq<char>| #[trigger] prefix_has(kept@, kept.len() as int, x) <==> (str_set(keep@).contains(x) && prefix_has(before.items@, i + 1, x)) by {
                    if prefix_has(kept@, kept.len() as int, x) {
                        let j = choose|j: int| 0 <= j < kept.len() && j < kept@.len() && #[trigger] kept@[j]@ == x;
                        if j < prev.len() {
                            assert(prev[j]@ == x);
                            assert(prefix_has(prev, prev.len() as int, x));
                        } else {
                            assert(before.items@[i as int]@ == x);
                        }
                    }
                    if str_set(keep@).contains(x) && prefix_has(before.items@, i + 1, x) {
                        let j = choose|j: int| 0 <= j < i + 1 && j < before.items@.len() && #[trigger] before.items@[j]@ == x;
                        if j < i {
                            assert(prefix_has(before.items@, i as int, x));
                            assert(prefix_has(prev, prev.len() as int, x));
                            let m = choose|m: int| 0 <= m < prev.len() && m < prev.len() && #[trigger] prev[m]@ == x;
                            assert(kept@[m]@ == x);
                        } else {
                            assert(kept@[kept.len() - 1]@ == x);
                        }
                    }
                }
                assert forall|a: int, b: int| 0 <= a < b < kept.len() implies #[trigger] kept[a]@ != #[trigger] kept[b]@ by {
                    if b == kept.len() - 1 {
                        if kept[a]@ == kept[b]@ {
                            assert(prev[a]@ == kept[a]@);
                            assert(prefix_has(prev, prev.len() as int, kept[a]@));
                            let j = choose|j: int| 0 <= j < i && j < before.items@.len() && #[trigger] before.items@[j]@ == kept[a]@;
                            assert(before.items[j]@ != before.items[i as int]@);
                        }
                    } else {
                        assert(prev[a]@ != prev[b]@);
                    }
                }
            } else {
                assert forall|x: Seq<char>| #[trigger] prefix_has(kept@, kept.len() as int, x) <==> (str_set(keep@).contains(x) && prefix_has(before.items@, i + 1, x)) by {
                    if str_set(keep@).contains(x) && prefix_has(before.items@, i + 1, x) {
                        let j = choose|j: int| 0 <= j < i + 1 && j < before.items@.len() && #[trigger] before.items@[j]@ == x;
                        if j == i {
                            assert(before.items@[i as int]@ == x);
                        }
                        assert(j < i);
                        assert(prefix_has(before.items@, i as int, x));
                    }
                }
            }
            i += 1;
        }
        self.items = kept;
        assert forall|x: Seq<char>| self.has(x) <==> (before.has(x) && str_set(keep@).contains(x)) by {
            if before.has(x) && str_set(keep@).contains(x) {
                let j = choose|j: int| 0 <= j < before.items.len() && #[trigger] before.items[j]@ == x;
                assert(prefix_has(before.items@, before.items.len() as int, x));
                assert(prefix_has(self.items@, self.items.len() as int, x));
            }
            if self.has(x) {
                let j = choose|j: int| 0 <= j < self.items.len() && #[trigger] self.items[j]@ == x;
                assert(prefix_has(self.items@, self.items.len() as int, x));
            }
        }
        assert(self@ =~= before@.intersect(str_set(keep@)));
    }

    /// Removes every key.
    pub fn clear(&mut self)
        ensures
            final(self).wf(),
            final(self)@ == Set::<Seq<char>>::empty(),
    {
        self.items = Vec::new();
        assert(self@ =~= Set::<Seq<char>>::empty());
    }

    /// Number of keys.
    pub fn len(&self) -> (r: usize)
        requires
            self.wf(),
        ensures
            r == self@.len(),
            r == self.items@.len(),
    {
        proof {
            let ks = key_seq(self.items@);
            assert(ks.no_duplicates());
            ks.unique_seq_to_set();
            assert forall|x: Seq<char>| ks.to_set().contains(x) <==> self@.contains(x) by {
                if self.has(x) {
                    let i = choose|i: int| 0 <= i < self.items.len() && #[trigger] self.items[i]@ == x;
                    assert(ks[i] == x);
                }
                if ks.contains(x) {
                    let i = choose|i: int| 0 <= i < ks.len() && ks[i] == x;
                    assert(self.items[i]@ == x);
                }
            }
            assert(ks.to_set() =~= self@);
        }
        self.items.len()
    }
}

} // verus!
