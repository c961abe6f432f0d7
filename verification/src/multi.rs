//! The content multi-selection as batch actions see it: the selected items
//! in row order (then the hidden ones by path), whether the dragged group is
//! contiguous or holds unregistered items, and the group's drag payload.
use vstd::prelude::*;
use crate::chars::after_last;
use crate::editor::Editor;
use crate::entries::{entry_multi_eligible, multi_eligible, VisibleEntry};
use crate::model::{list_contains, str_set, KeySet};
use crate::text::{basename, strs};
use crate::transfer::{group_transfer, group_transfer_text};

verus! {

/// Lexicographic order of texts by code point (the order of `String`).
pub open spec fn text_lt(a: Seq<char>, b: Seq<char>) -> bool
    decreases a.len(),
{
    if a.len() == 0 {
        b.len() > 0
    } else if b.len() == 0 {
        false
    } else if a[0] != b[0] {
        a[0] < b[0]
    } else {
        text_lt(a.drop_first(), b.drop_first())
    }
}

pub proof fn lemma_text_lt_irrefl(a: Seq<char>)
    ensures
        !text_lt(a, a),
    decreases a.len(),
{
    if a.len() > 0 {
        lemma_text_lt_irrefl(a.drop_first());
    }
}

pub proof fn lemma_text_lt_trans(a: Seq<char>, b: Seq<char>, c: Seq<char>)
    requires
        text_lt(a, b),
        text_lt(b, c),
    ensures
        text_lt(a, c),
    decreases a.len(),
{
    if a.len() > 0 && b.len() > 0 && c.len() > 0 && a[0] == b[0] && b[0] == c[0] {
        lemma_text_lt_trans(a.drop_first(), b.drop_first(), c.drop_first());
    }
}

pub proof fn lemma_text_lt_total(a: Seq<char>, b: Seq<char>)
    requires
        a != b,
    ensures
        text_lt(a, b) || text_lt(b, a),
    decreases a.len(),
{
    if a.len() > 0 && b.len() > 0 {
        if a[0] == b[0] {
            if a.drop_first() == b.drop_first() {
                assert(a =~= seq![a[0]] + a.drop_first());
                assert(b =~= seq![b[0]] + b.drop_first());
            }
            lemma_text_lt_total(a.drop_first(), b.drop_first());
        }
    } else if a.len() == 0 && b.len() == 0 {
        assert(a =~= b);
    }
}

/// Whether `a` sorts before `b`.
pub fn text_lt_exec(a: &String, b: &String) -> (r: bool)
    ensures
        r == text_lt(a@, b@),
{
    let x = crate::chars::chars_of(a.as_str());
    let y = crate::chars::chars_of(b.as_str());
    let mut i: usize = 0;
    assert(x@.skip(0) =~= x@ && y@.skip(0) =~= y@);
    assert(x@.subrange(0, 0) =~= y@.subrange(0, 0));
    while i < x.len() && i < y.len() && x[i] == y[i]
        invariant
            i <= x@.len(),
            i <= y@.len(),
            x@.subrange(0, i as int) == y@.subrange(0, i as int),
            text_lt(a@, b@) == text_lt(x@.skip(i as int), y@.skip(i as int)),
            x@ == a@,
            y@ == b@,
        decreases x.len() - i,
    {
        assert(x@.skip(i as int).drop_first() =~= x@.skip(i + 1));
        assert(y@.skip(i as int).drop_first() =~= y@.skip(i + 1));
        i += 1;
        assert(x@.subrange(0, i as int) =~= y@.subrange(0, i as int)) by {
            assert forall|k: int| 0 <= k < i implies x@[k] == y@[k] by {
                if k < i - 1 {
                    assert(x@.subrange(0, i - 1)[k] == y@.subrange(0, i - 1)[k]);
                }
            }
        }
    }
    if i == x.len() {
        return i < y.len();
    }
    if i == y.len() {
        return false;
    }
    x[i] < y[i]
}

/// The selected paths of the visible rows, in row order (eligible rows
/// only).
pub open spec fn shown_selected(rows: Seq<VisibleEntry>, multi: Set<Seq<char>>) -> Seq<Seq<char>>
    decreases rows.len(),
{
    if rows.len() == 0 {
        Seq::empty()
    } else {
        let before = shown_selected(rows.drop_last(), multi);
        let v = rows.last();
        if multi_eligible(v) && multi.contains(v.path@) { before.push(v.path@) } else { before }
    }
}

/// `xs` strictly increasing.
pub open spec fn sorted_texts(xs: Seq<Seq<char>>) -> bool {
    forall|i: int, j: int| 0 <= i < j < xs.len() ==> text_lt(#[trigger] xs[i], #[trigger] xs[j])
}

/// The selected items for a batch action: first the selected visible rows
/// in row order, then the remaining selected paths still present on disk
/// (`alive`) that no visible row shows, in path order. Each item pairs the
/// path with its file name.
pub open spec fn batch_items_ok(
    r: Seq<(Seq<char>, Seq<char>)>,
    rows: Seq<VisibleEntry>,
    multi: Set<Seq<char>>,
    alive: Set<Seq<char>>,
) -> bool {
    let shown = shown_selected(rows, multi);
    &&& r.len() >= shown.len()
    &&& forall|i: int| 0 <= i < shown.len() ==> #[trigger] r[i] == (shown[i], after_last(shown[i], '/'))
    &&& forall|i: int| shown.len() <= i < r.len() ==> #[trigger] r[i].1 == after_last(r[i].0, '/')
    &&& sorted_texts(Seq::new((r.len() - shown.len()) as nat, |k: int| r[shown.len() + k].0))
    &&& forall|p: Seq<char>| (exists|i: int| shown.len() <= i < r.len() && #[trigger] r[i].0 == p)
        <==> (multi.contains(p) && alive.contains(p) && !shown.contains(p))
}

pub open spec fn item_views(v: Seq<(String, String)>) -> Seq<(Seq<char>, Seq<char>)> {
    Seq::new(v.len(), |i: int| (v[i].0@, v[i].1@))
}

/// Inserts `p` into a strictly increasing list of texts that lacks it,
/// keeping it strictly increasing.
pub fn sorted_insert(rest: &mut Vec<String>, p: &String)
    requires
        sorted_texts(strs(old(rest)@)),
        !strs(old(rest)@).contains(p@),
    ensures
        sorted_texts(strs(final(rest)@)),
        forall|x: Seq<char>| strs(final(rest)@).contains(x) <==> (strs(old(rest)@).contains(x) || x == p@),
{
    let ghost before = strs(rest@);
    let mut pos: usize = 0;
    while pos < rest.len() && text_lt_exec(&rest[pos], p)
        invariant
            pos <= rest@.len(),
            forall|q: int| 0 <= q < pos ==> text_lt(#[trigger] strs(rest@)[q], p@),
        decreases rest.len() - pos,
    {
        pos += 1;
    }
    rest.insert(pos, p.clone());
    proof {
        let now = strs(rest@);
        assert(now =~= before.insert(pos as int, p@));
        assert forall|a: int, b: int| 0 <= a < b < now.len() implies text_lt(#[trigger] now[a], #[trigger] now[b]) by {
            if b < pos {
                assert(now[a] == before[a] && now[b] == before[b]);
            } else if b == pos {
                assert(now[a] == before[a]);
            } else if a == pos {
                assert(now[b] == before[b - 1]);
                assert(!text_lt(before[pos as int], p@));
                assert(before[pos as int] != p@);
                lemma_text_lt_total(before[pos as int], p@);
                if b - 1 > pos {
                    lemma_text_lt_trans(p@, before[pos as int], before[b - 1]);
                }
            } else if a < pos {
                assert(now[a] == before[a] && now[b] == before[b - 1]);
            } else {
                assert(now[a] == before[a - 1] && now[b] == before[b - 1]);
            }
        }
        assert forall|x: Seq<char>| now.contains(x) <==> (before.contains(x) || x == p@) by {
            if now.contains(x) {
                let t = choose|t: int| 0 <= t < now.len() && now[t] == x;
                if t < pos {
                    assert(before[t] == x);
                } else if t > pos {
                    assert(before[t - 1] == x);
                }
            }
            if before.contains(x) {
                let t = choose|t: int| 0 <= t < before.len() && before[t] == x;
                if t < pos {
                    assert(now[t] == x);
                } else {
                    assert(now[t + 1] == x);
                }
            }
            if x == p@ {
                assert(now[pos as int] == x);
            }
        }
    }
}

/// Collects the multi-selection for a batch action (see `batch_items_ok`).
/// `rows`: the active branch's visible rows; `alive`: selected paths that
/// still exist under the active branch (empty without one).
pub fn collect_entry_multi(e: &Editor, rows: &Vec<VisibleEntry>, alive: &Vec<String>) -> (r: Vec<(String, String)>)
    requires
        e.wf(),
    ensures
        batch_items_ok(item_views(r@), rows@, e.entry_multi@, str_set(alive@)),
{
    let ghost multi = e.entry_multi@;
    let mut out: Vec<(String, String)> = Vec::new();
    let mut shown_paths: Vec<String> = Vec::new();
    let mut i: usize = 0;
    while i < rows.len()
        invariant
            i <= rows@.len(),
            multi == e.entry_multi@,
            strs(shown_paths@) == shown_selected(rows@.take(i as int), multi),
            out@.len() == shown_paths@.len(),
            forall|k: int| 0 <= k < out@.len() ==> #[trigger] item_views(out@)[k] == (strs(shown_paths@)[k], after_last(strs(shown_paths@)[k], '/')),
        decreases rows.len() - i,
    {
        assert(rows@.take(i + 1).drop_last() =~= rows@.take(i as int));
        let v = &rows[i];
        if entry_multi_eligible(v) && e.entry_multi.contains(&v.path) {
            let ghost before = strs(shown_paths@);
            let ghost old_items = item_views(out@);
            shown_paths.push(v.path.clone());
            out.push((v.path.clone(), basename(v.path.as_str())));
            assert(strs(shown_paths@) =~= before.push(v.path@));
            assert forall|k: int| 0 <= k < out@.len() implies #[trigger] item_views(out@)[k] == (strs(shown_paths@)[k], after_last(strs(shown_paths@)[k], '/')) by {
                if k < old_items.len() {
                    assert(item_views(out@)[k] == old_items[k]);
                }
            }
        }
        i += 1;
    }
    assert(rows@.take(rows@.len() as int) =~= rows@);
    let ghost shown = strs(shown_paths@);
    let ghost prefix_items = item_views(out@);
    // The hidden remainder, kept sorted by insertion.
    let mut rest: Vec<String> = Vec::new();
    let mut k: usize = 0;
    while k < e.entry_multi.items.len()
        invariant
            e.wf(),
            k <= e.entry_multi.items@.len(),
            shown == strs(shown_paths@),
            multi == e.entry_multi@,
            sorted_texts(strs(rest@)),
            forall|p: Seq<char>| #[trigger] strs(rest@).contains(p) <==> (
                crate::model::prefix_has(e.entry_multi.items@, k as int, p) && str_set(alive@).contains(p) && !shown.contains(p)),
        decreases e.entry_multi.items.len() - k,
    {
        let p = &e.entry_multi.items[k];
        let visible = list_contains(&shown_paths, p);
        assert(visible == shown.contains(p@)) by {
            if shown.contains(p@) {
                let t = choose|t: int| 0 <= t < shown.len() && shown[t] == p@;
                assert(strs(shown_paths@)[t] == shown_paths@[t]@);
            }
            if visible {
                let t = choose|t: int| 0 <= t < shown_paths@.len() && #[trigger] shown_paths@[t]@ == p@;
                assert(shown[t] == p@);
            }
        }
        let live = list_contains(alive, p);
        let added = !visible && live;
        let ghost before = strs(rest@);
        if added {
            assert(!before.contains(p@)) by {
                if before.contains(p@) {
                    let t = choose|t: int| 0 <= t < k && t < e.entry_multi.items@.len() && #[trigger] e.entry_multi.items@[t]@ == p@;
                    assert(e.entry_multi.items@[t]@ != e.entry_multi.items@[k as int]@);
                }
            }
            sorted_insert(&mut rest, p);
        }
        assert forall|x: Seq<char>| #[trigger] strs(rest@).contains(x) <==> (before.contains(x) || (added && x == p@)) by {}
        assert forall|x: Seq<char>| #[trigger] strs(rest@).contains(x) <==> (
            crate::model::prefix_has(e.entry_multi.items@, k + 1, x) && str_set(alive@).contains(x) && !shown.contains(x)) by {
            if crate::model::prefix_has(e.entry_multi.items@, k + 1, x) {
                let t = choose|t: int| 0 <= t < k + 1 && t < e.entry_multi.items@.len() && #[trigger] e.entry_multi.items@[t]@ == x;
                if t < k {
                    assert(crate::model::prefix_has(e.entry_multi.items@, k as int, x));
                }
            }
            if crate::model::prefix_has(e.entry_multi.items@, k as int, x) {
                let t = choose|t: int| 0 <= t < k && t < e.entry_multi.items@.len() && #[trigger] e.entry_multi.items@[t]@ == x;
                assert(crate::model::prefix_has(e.entry_multi.items@, k + 1, x));
            }
            if x == p@ {
                assert(crate::model::prefix_has(e.entry_multi.items@, k + 1, x));
            }
        }
        k += 1;
    }
    let ghost base = out@.len() as int;
    let ghost rv = strs(rest@);
    let mut j: usize = 0;
    while j < rest.len()
        invariant
            j <= rest@.len(),
            base == shown.len(),
            rv == strs(rest@),
            out@.len() == base + j,
            forall|q: int| 0 <= q < base ==> #[trigger] item_views(out@)[q] == (shown[q], after_last(shown[q], '/')),
            forall|q: int| 0 <= q < j ==> #[trigger] item_views(out@)[base + q] == (rv[q], after_last(rv[q], '/')),
        decreases rest.len() - j,
    {
        let ghost old_items = item_views(out@);
        out.push((rest[j].clone(), basename(rest[j].as_str())));
        assert forall|q: int| 0 <= q < base + j implies #[trigger] item_views(out@)[q] == old_items[q] by {}
        assert(item_views(out@)[base + j] == (rv[j as int], after_last(rv[j as int], '/')));
        j += 1;
    }
    proof {
        let r = item_views(out@);
        let tail = Seq::new((r.len() - base) as nat, |q: int| r[base + q].0);
        assert(tail =~= rv) by {
            assert forall|q: int| 0 <= q < rv.len() implies tail[q] == rv[q] by {
                assert(r[base + q] == (rv[q], after_last(rv[q], '/')));
            }
        }
        assert forall|i: int| base <= i < r.len() implies #[trigger] r[i].1 == after_last(r[i].0, '/') by {
            assert(r[base + (i - base)] == (rv[i - base], after_last(rv[i - base], '/')));
        }
        assert forall|p: Seq<char>| (exists|i: int| base <= i < r.len() && #[trigger] r[i].0 == p)
            <==> (multi.contains(p) && str_set(alive@).contains(p) && !shown.contains(p)) by {
            if exists|i: int| base <= i < r.len() && #[trigger] r[i].0 == p {
                let i = choose|i: int| base <= i < r.len() && #[trigger] r[i].0 == p;
                assert(r[base + (i - base)] == (rv[i - base], after_last(rv[i - base], '/')));
                assert(rv.contains(p));
                let t = choose|t: int| 0 <= t < e.entry_multi.items@.len() && t < e.entry_multi.items@.len() && #[trigger] e.entry_multi.items@[t]@ == p;
                assert(e.entry_multi.has(p));
            }
            if multi.contains(p) && str_set(alive@).contains(p) && !shown.contains(p) {
                assert(e.entry_multi.has(p));
                let t = choose|t: int| 0 <= t < e.entry_multi.items@.len() && #[trigger] e.entry_multi.items@[t]@ == p;
                assert(crate::model::prefix_has(e.entry_multi.items@, e.entry_multi.items@.len() as int, p));
                assert(rv.contains(p));
                let q = choose|q: int| 0 <= q < rv.len() && rv[q] == p;
                assert(r[base + q] == (rv[q], after_last(rv[q], '/')));
                assert(r[base + q].0 == p);
            }
        }
        let sh = shown_selected(rows@, e.entry_multi@);
        assert(sh == shown);
        assert(r.len() >= sh.len());
        assert(forall|i: int| 0 <= i < sh.len() ==> #[trigger] r[i] == (sh[i], after_last(sh[i], '/')));
        assert(sorted_texts(rv));
        assert(sorted_texts(Seq::new((r.len() - sh.len()) as nat, |k: int| r[sh.len() + k].0)));
    }
    out
}

/// The rows selected by `multi` form one unbroken run (no unselected row
/// between two selected ones).
pub open spec fn selection_contiguous(rows: Seq<VisibleEntry>, multi: Set<Seq<char>>) -> bool {
    forall|i: int, j: int, k: int| 0 <= i < j < k < rows.len() && multi.contains(#[trigger] rows[i].path@) && multi.contains(#[trigger] rows[k].path@)
        ==> multi.contains(#[trigger] rows[j].path@)
}

/// Whether the dragged group is contiguous in row order (drop boundaries
/// touching a contiguous group change nothing).
pub fn entry_multi_contiguous(e: &Editor, rows: &Vec<VisibleEntry>) -> (r: bool)
    ensures
        r == selection_contiguous(rows@, e.entry_multi@),
{
    let ghost m = e.entry_multi@;
    let mut last: Option<usize> = None;
    let mut i: usize = 0;
    while i < rows.len()
        invariant
            i <= rows@.len(),
            m == e.entry_multi@,
            forall|a: int, b: int, c: int| 0 <= a < b < c < i && m.contains(#[trigger] rows@[a].path@) && m.contains(#[trigger] rows@[c].path@)
                ==> m.contains(#[trigger] rows@[b].path@),
            match last {
                Some(l) => l < i && m.contains(rows@[l as int].path@) && forall|t: int| l < t < i ==> !m.contains(#[trigger] rows@[t].path@),
                None => forall|t: int| 0 <= t < i ==> !m.contains(#[trigger] rows@[t].path@),
            },
        decreases rows.len() - i,
    {
        if e.entry_multi.contains(&rows[i].path) {
            match last {
                Some(l) => {
                    if i != l + 1 {
                        assert(!selection_contiguous(rows@, m)) by {
                            assert(m.contains(rows@[l as int].path@));
                            assert(!m.contains(rows@[l + 1].path@));
                            assert(m.contains(rows@[i as int].path@));
                        }
                        return false;
                    }
                },
                None => {},
            }
            last = Some(i);
        }
        i += 1;
    }
    true
}

/// The dragged group holds a path that the branch does not register (a
/// folder child or an unregistered top-level item).
pub fn entry_multi_has_unregistered(items: &Vec<(String, String)>, registered: &Vec<String>) -> (r: bool)
    ensures
        r == exists|i: int| 0 <= i < items@.len() && !str_set(registered@).contains(#[trigger] items@[i].0@),
{
    let mut i: usize = 0;
    while i < items.len()
        invariant
            i <= items@.len(),
            forall|t: int| 0 <= t < i ==> str_set(registered@).contains(#[trigger] items@[t].0@),
        decreases items.len() - i,
    {
        if !list_contains(registered, &items[i].0) {
            return true;
        }
        i += 1;
    }
    false
}

/// The drag payload of a content row: the whole group (in batch order)
/// when the row is part of the multi-selection, else the row's own payload.
pub fn multi_transfer_text(e: &Editor, visit: &str, path: &String, fallback: &str, items: &Vec<(String, String)>) -> (r: String)
    ensures
        !e.entry_multi@.contains(path@) ==> r@ == fallback@,
        e.entry_multi@.contains(path@) ==> r@ == group_transfer(visit@, Seq::new(items@.len(), |i: int| items@[i].0@)),
{
    if !e.entry_multi.contains(path) {
        return fallback.to_owned();
    }
    let mut paths: Vec<String> = Vec::new();
    let mut i: usize = 0;
    while i < items.len()
        invariant
            i <= items@.len(),
            strs(paths@) == Seq::new(i as nat, |k: int| items@[k].0@),
        decreases items.len() - i,
    {
        let ghost before = strs(paths@);
        paths.push(items[i].0.clone());
        assert(strs(paths@) =~= before.push(items@[i as int].0@));
        i += 1;
        assert(strs(paths@) =~= Seq::new(i as nat, |k: int| items@[k].0@));
    }
    group_transfer_text(visit, paths.as_slice())
}

} // verus!
