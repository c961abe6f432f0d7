//! What the mind-map layout depends on: the visible rows, the open content
//! panels with their row counts, and the scan generation. Selection state
//! takes no part, so a click never forces a new layout.
use vstd::prelude::*;
use crate::editor::Editor;
use crate::model::KeySet;
use crate::multi::{lemma_text_lt_irrefl, lemma_text_lt_total, lemma_text_lt_trans, sorted_insert, sorted_texts, text_lt};
use crate::rows::{build_entry_rows_for, entry_rows, max_depth, FolderListing};
use crate::text::strs;
use crate::transfer::comp_views;
use crate::tree::VisibleRow;

verus! {

/// The layout-relevant part of one visible row.
#[derive(Hash)]
pub struct RowSig {
    pub visit: usize,
    pub title: String,
    pub type_str: String,
    pub expanded: bool,
    pub has_children: bool,
    pub has_entries: bool,
}

/// Everything the mind-map geometry is computed from.
#[derive(Hash)]
pub struct LayoutKey {
    pub scan_gen: u64,
    pub rows: Vec<RowSig>,
    /// Keys of the open content panels, in increasing order.
    pub panels: Vec<String>,
    /// Row counts of the open panels' branches, in scan order.
    pub panel_rows: Vec<usize>,
}

/// A row signature as plain values.
pub open spec fn row_sig_view(k: RowSig) -> (usize, Seq<char>, Seq<char>, bool, bool, bool) {
    (k.visit, k.title@, k.type_str@, k.expanded, k.has_children, k.has_entries)
}

/// The signature of a visible row.
pub open spec fn row_sig_of(r: VisibleRow) -> (usize, Seq<char>, Seq<char>, bool, bool, bool) {
    (r.visit, r.title@, r.type_str@, r.expanded, r.has_children, r.has_entries)
}

/// Number of content rows of branch `i` (none without a parsed `._meta`).
pub open spec fn panel_count(e: Editor, ls: Seq<FolderListing>, i: int) -> int {
    let s = e.scan.unwrap();
    match s.visits[i].meta {
        Some(m) => entry_rows(ls, e.expanded_dirs@, comp_views(s.visits[i].dir@), m.entries@).len() as int,
        None => 0,
    }
}

/// Row counts of the branches among the first `n` whose panel is open.
pub open spec fn panel_rows_of(e: Editor, ls: Seq<FolderListing>, n: int) -> Seq<int>
    decreases n,
{
    if n <= 0 || e.scan is None || n > e.scan.unwrap().visits.len() {
        Seq::empty()
    } else {
        let before = panel_rows_of(e, ls, n - 1);
        if e.content_expanded@.contains(e.scan.unwrap().visits[n - 1].rel@) {
            before.push(panel_count(e, ls, n - 1))
        } else {
            before
        }
    }
}

/// `k` is the layout key of editor `e` with folder listings `ls`.
pub open spec fn layout_key_ok(k: LayoutKey, e: Editor, ls: Seq<FolderListing>) -> bool {
    &&& k.scan_gen == e.scan_gen
    &&& k.rows@.len() == e.rows@.len()
    &&& forall|i: int| 0 <= i < k.rows@.len() ==> row_sig_view(#[trigger] k.rows@[i]) == row_sig_of(e.rows@[i])
    &&& match e.scan {
        None => k.panels@.len() == 0 && k.panel_rows@.len() == 0,
        Some(s) => {
            &&& sorted_texts(strs(k.panels@))
            &&& strs(k.panels@).to_set() == e.content_expanded@
            &&& k.panel_rows@.len() == panel_rows_of(e, ls, s.visits.len() as int).len()
            &&& forall|i: int| 0 <= i < k.panel_rows@.len() ==> #[trigger] k.panel_rows@[i] as int == panel_rows_of(e, ls, s.visits.len() as int)[i]
        },
    }
}

/// The keys of a set, in increasing order.
pub fn sorted_keys(set: &KeySet) -> (r: Vec<String>)
    requires
        set.wf(),
    ensures
        sorted_texts(strs(r@)),
        strs(r@).to_set() == set@,
{
    let mut out: Vec<String> = Vec::new();
    let mut k: usize = 0;
    while k < set.items.len()
        invariant
            set.wf(),
            k <= set.items@.len(),
            sorted_texts(strs(out@)),
            forall|x: Seq<char>| strs(out@).contains(x) <==> crate::model::prefix_has(set.items@, k as int, x),
        decreases set.items.len() - k,
    {
        let p = &set.items[k];
        assert(!strs(out@).contains(p@)) by {
            if strs(out@).contains(p@) {
                let t = choose|t: int| 0 <= t < k && t < set.items@.len() && #[trigger] set.items@[t]@ == p@;
                assert(set.items@[t]@ != set.items@[k as int]@);
            }
        }
        sorted_insert(&mut out, p);
        assert forall|x: Seq<char>| strs(out@).contains(x) <==> crate::model::prefix_has(set.items@, k + 1, x) by {
            if crate::model::prefix_has(set.items@, k + 1, x) {
                let t = choose|t: int| 0 <= t < k + 1 && t < set.items@.len() && #[trigger] set.items@[t]@ == x;
                if t < k {
                    assert(crate::model::prefix_has(set.items@, k as int, x));
                }
            }
        }
        k += 1;
    }
    assert(strs(out@).to_set() =~= set@) by {
        assert forall|x: Seq<char>| strs(out@).to_set().contains(x) <==> set@.contains(x) by {
            if set@.contains(x) {
                assert(set.has(x));
                let t = choose|t: int| 0 <= t < set.items@.len() && #[trigger] set.items@[t]@ == x;
                assert(crate::model::prefix_has(set.items@, set.items@.len() as int, x));
            }
        }
    }
    out
}

/// Collects the layout key of the editor (see `layout_key_ok`). `ls` holds
/// the listings of the open content folders.
pub fn layout_key(e: &Editor, ls: &Vec<FolderListing>) -> (k: LayoutKey)
    requires
        e.wf(),
        max_depth(ls@) < usize::MAX,
    ensures
        layout_key_ok(k, *e, ls@),
{
    let mut rows: Vec<RowSig> = Vec::new();
    let mut i: usize = 0;
    while i < e.rows.len()
        invariant
            i <= e.rows@.len(),
            rows@.len() == i,
            forall|j: int| 0 <= j < i ==> row_sig_view(#[trigger] rows@[j]) == row_sig_of(e.rows@[j]),
        decreases e.rows.len() - i,
    {
        let r = &e.rows[i];
        rows.push(RowSig {
            visit: r.visit,
            title: r.title.clone(),
            type_str: r.type_str.clone(),
            expanded: r.expanded,
            has_children: r.has_children,
            has_entries: r.has_entries,
        });
        i += 1;
    }
    let mut panels: Vec<String> = Vec::new();
    let mut panel_rows: Vec<usize> = Vec::new();
    match &e.scan {
        Some(s) => {
            panels = sorted_keys(&e.content_expanded);
            let mut v: usize = 0;
            while v < s.visits.len()
                invariant
                    e.scan == Some(*s),
                    max_depth(ls@) < usize::MAX,
                    v <= s.visits@.len(),
                    panel_rows@.len() == panel_rows_of(*e, ls@, v as int).len(),
                    forall|j: int| 0 <= j < panel_rows@.len() ==> #[trigger] panel_rows@[j] as int == panel_rows_of(*e, ls@, v as int)[j],
                decreases s.visits.len() - v,
            {
                if e.content_expanded.contains(&s.visits[v].rel) {
                    let n = build_entry_rows_for(e, v, ls).len();
                    assert(n as int == panel_count(*e, ls@, v as int));
                    panel_rows.push(n);
                }
                v += 1;
            }
        },
        None => {},
    }
    LayoutKey { scan_gen: e.scan_gen, rows, panels, panel_rows }
}

/// Two strictly increasing texts lists with the same items are equal.
proof fn lemma_sorted_unique(a: Seq<Seq<char>>, b: Seq<Seq<char>>)
    requires
        sorted_texts(a),
        sorted_texts(b),
        a.to_set() == b.to_set(),
    ensures
        a == b,
    decreases a.len(),
{
    broadcast use vstd::seq_lib::group_seq_properties;

    if a.len() == 0 {
        if b.len() > 0 {
            assert(b.to_set().contains(b[0]));
        }
    } else if b.len() == 0 {
        assert(a.to_set().contains(a[0]));
    } else {
        // The first items are the least of the common set.
        assert(b.to_set().contains(a[0]));
        assert(a.to_set().contains(b[0]));
        if a[0] != b[0] {
            let i = choose|i: int| 0 <= i < b.len() && b[i] == a[0];
            let j = choose|j: int| 0 <= j < a.len() && a[j] == b[0];
            assert(i > 0 && j > 0);
            assert(text_lt(b[0], b[i]));
            assert(text_lt(a[0], a[j]));
            lemma_text_lt_trans(a[0], b[0], a[0]);
            lemma_text_lt_irrefl(a[0]);
        }
        let a1 = a.drop_first();
        let b1 = b.drop_first();
        assert(a1.to_set() == b1.to_set()) by {
            assert forall|x: Seq<char>| a1.to_set().contains(x) <==> b1.to_set().contains(x) by {
                if a1.to_set().contains(x) {
                    let i = choose|i: int| 0 <= i < a1.len() && a1[i] == x;
                    assert(text_lt(a[0], a[i + 1]));
                    assert(x != a[0]) by {
                        lemma_text_lt_irrefl(a[0]);
                    }
                    assert(b.to_set().contains(x));
                    let j = choose|j: int| 0 <= j < b.len() && b[j] == x;
                    assert(j != 0);
                    assert(b1[j - 1] == x);
                }
                if b1.to_set().contains(x) {
                    let i = choose|i: int| 0 <= i < b1.len() && b1[i] == x;
                    assert(text_lt(b[0], b[i + 1]));
                    assert(x != b[0]) by {
                        lemma_text_lt_irrefl(b[0]);
                    }
                    assert(a.to_set().contains(x));
                    let j = choose|j: int| 0 <= j < a.len() && a[j] == x;
                    assert(j != 0);
                    assert(a1[j - 1] == x);
                }
            }
        }
        assert forall|p: int, q: int| 0 <= p < q < a1.len() implies text_lt(#[trigger] a1[p], #[trigger] a1[q]) by {
            assert(text_lt(a[p + 1], a[q + 1]));
        }
        assert forall|p: int, q: int| 0 <= p < q < b1.len() implies text_lt(#[trigger] b1[p], #[trigger] b1[q]) by {
            assert(text_lt(b[p + 1], b[q + 1]));
        }
        lemma_sorted_unique(a1, b1);
        assert(a =~= seq![a[0]] + a1);
        assert(b =~= seq![b[0]] + b1);
    }
}

/// The layout key ignores the selection: editors that agree on the scan,
/// the visible rows, the open panels and folders and the scan generation
/// have the same key, whatever branch, entry or range is selected.
pub proof fn law_layout_key_ignores_selection(e1: Editor, e2: Editor, ls: Seq<FolderListing>, k1: LayoutKey, k2: LayoutKey)
    requires
        e1.scan == e2.scan,
        e1.rows == e2.rows,
        e1.scan_gen == e2.scan_gen,
        e1.content_expanded@ == e2.content_expanded@,
        e1.expanded_dirs@ == e2.expanded_dirs@,
        layout_key_ok(k1, e1, ls),
        layout_key_ok(k2, e2, ls),
    ensures
        k1.scan_gen == k2.scan_gen,
        k1.rows@.len() == k2.rows@.len(),
        forall|i: int| 0 <= i < k1.rows@.len() ==> row_sig_view(#[trigger] k1.rows@[i]) == row_sig_view(k2.rows@[i]),
        strs(k1.panels@) == strs(k2.panels@),
        k1.panel_rows@ == k2.panel_rows@,
{
    assert forall|i: int| 0 <= i < k1.rows@.len() implies row_sig_view(#[trigger] k1.rows@[i]) == row_sig_view(k2.rows@[i]) by {
        assert(row_sig_view(k2.rows@[i]) == row_sig_of(e2.rows@[i]));
    }
    match e1.scan {
        None => {
            assert(strs(k1.panels@) =~= strs(k2.panels@));
            assert(k1.panel_rows@ =~= k2.panel_rows@);
        },
        Some(s) => {
            lemma_sorted_unique(strs(k1.panels@), strs(k2.panels@));
            assert(forall|n: int| panel_rows_of(e1, ls, n) == panel_rows_of(e2, ls, n)) by {
                assert forall|n: int| panel_rows_of(e1, ls, n) == panel_rows_of(e2, ls, n) by {
                    lemma_panel_rows_same(e1, e2, ls, n);
                }
            }
            assert(k1.panel_rows@ =~= k2.panel_rows@) by {
                assert forall|i: int| 0 <= i < k1.panel_rows@.len() implies k1.panel_rows@[i] == k2.panel_rows@[i] by {
                    assert(k1.panel_rows@[i] as int == panel_rows_of(e1, ls, s.visits.len() as int)[i]);
                    assert(k2.panel_rows@[i] as int == panel_rows_of(e2, ls, s.visits.len() as int)[i]);
                }
            }
        },
    }
}

proof fn lemma_panel_rows_same(e1: Editor, e2: Editor, ls: Seq<FolderListing>, n: int)
    requires
        e1.scan == e2.scan,
        e1.content_expanded@ == e2.content_expanded@,
        e1.expanded_dirs@ == e2.expanded_dirs@,
    ensures
        panel_rows_of(e1, ls, n) == panel_rows_of(e2, ls, n),
    decreases n,
{
    if n > 0 {
        lemma_panel_rows_same(e1, e2, ls, n - 1);
    }
}

/// Changing only the selection (the active branch, the primary entry, the
/// entry multi-selection and its range anchor) leaves the layout key as it
/// was, so the mind map keeps its layout.
pub proof fn law_selection_change_keeps_layout_key(
    e: Editor,
    selected: Option<String>,
    selected_entry_path: Option<String>,
    entry_multi: KeySet,
    entry_anchor: Option<usize>,
    ls: Seq<FolderListing>,
    k1: LayoutKey,
    k2: LayoutKey,
)
    requires
        layout_key_ok(k1, e, ls),
        layout_key_ok(k2, Editor { selected, selected_entry_path, entry_multi, entry_anchor, ..e }, ls),
    ensures
        k1.scan_gen == k2.scan_gen,
        k1.rows@.len() == k2.rows@.len(),
        forall|i: int| 0 <= i < k1.rows@.len() ==> row_sig_view(#[trigger] k1.rows@[i]) == row_sig_view(k2.rows@[i]),
        strs(k1.panels@) == strs(k2.panels@),
        k1.panel_rows@ == k2.panel_rows@,
{
    let e2 = Editor { selected, selected_entry_path, entry_multi, entry_anchor, ..e };
    law_layout_key_ignores_selection(e, e2, ls, k1, k2);
}

} // verus!
