//! Finder-style selection in the content list: plain click, ⌘-click toggle,
//! Shift range from an anchor, arrow-key stepping, "select parent" and
//! select-all. Rows are the branch's visible content rows.
use vstd::prelude::*;
use crate::editor::{opt_view, Editor};
use crate::entries::{entry_multi_eligible, multi_eligible, VisibleEntry};
use crate::model::toggled;

verus! {

/// Paths of rows `lo..=hi` (only eligible rows when `eligible_only`).
pub open spec fn range_paths(rows: Seq<VisibleEntry>, lo: int, hi: int, eligible_only: bool) -> Set<Seq<char>> {
    Set::new(|k: Seq<char>| exists|j: int| lo <= j <= hi && 0 <= j < rows.len() && #[trigger] rows[j].path@ == k
        && (!eligible_only || multi_eligible(rows[j])))
}

/// Paths of all eligible rows.
pub open spec fn eligible_paths(rows: Seq<VisibleEntry>) -> Set<Seq<char>> {
    range_paths(rows, 0, rows.len() - 1, true)
}

/// The editor fields a selection change leaves alone.
pub open spec fn same_tree(a: Editor, b: Editor) -> bool {
    &&& a.scan == b.scan
    &&& a.kids == b.kids
    &&& a.rows == b.rows
    &&& a.expanded == b.expanded
    &&& a.selected == b.selected
    &&& a.expanded_dirs == b.expanded_dirs
    &&& a.content_expanded == b.content_expanded
    &&& a.scan_gen == b.scan_gen
}

/// Replaces the selection with the paths of rows `lo..=hi`.
fn select_range(e: &mut Editor, rows: &Vec<VisibleEntry>, lo: usize, hi: usize, eligible_only: bool)
    requires
        old(e).wf(),
        lo <= hi < rows@.len(),
    ensures
        final(e).wf(),
        final(e).entry_multi@ == range_paths(rows@, lo as int, hi as int, eligible_only),
        same_tree(*final(e), *old(e)),
        final(e).selected_entry_path == old(e).selected_entry_path,
        final(e).entry_anchor == old(e).entry_anchor,
{
    e.entry_multi.clear();
    let n = rows.len();
    let end = hi + 1;
    let mut j = lo;
    while j < end
        invariant
            e.wf(),
            end == hi + 1,
            lo <= j <= hi + 1,
            hi < rows@.len(),
            e.entry_multi@ == range_paths(rows@, lo as int, j - 1, eligible_only),
            same_tree(*e, *old(e)),
            e.selected_entry_path == old(e).selected_entry_path,
            e.entry_anchor == old(e).entry_anchor,
        decreases hi + 1 - j,
    {
        let take = !eligible_only || entry_multi_eligible(&rows[j]);
        let ghost before = e.entry_multi@;
        if take {
            e.entry_multi.insert(&rows[j].path);
        }
        assert(e.entry_multi@ =~= range_paths(rows@, lo as int, j as int, eligible_only)) by {
            assert forall|k: Seq<char>| range_paths(rows@, lo as int, j as int, eligible_only).contains(k)
                implies e.entry_multi@.contains(k) by {
                let t = choose|t: int| lo <= t <= j && 0 <= t < rows@.len() && #[trigger] rows@[t].path@ == k
                    && (!eligible_only || multi_eligible(rows@[t]));
                if t < j {
                    assert(range_paths(rows@, lo as int, j - 1, eligible_only).contains(k));
                }
            }
            assert forall|k: Seq<char>| e.entry_multi@.contains(k)
                implies range_paths(rows@, lo as int, j as int, eligible_only).contains(k) by {
                if before.contains(k) {
                    let t = choose|t: int| lo <= t <= j - 1 && 0 <= t < rows@.len() && #[trigger] rows@[t].path@ == k
                        && (!eligible_only || multi_eligible(rows@[t]));
                } else {
                    assert(rows@[j as int].path@ == k);
                }
            }
        }
        j += 1;
    }
}

/// Selects row `index` alone (arrow keys, Quick Look paging): the row's
/// path becomes the one-element selection and the primary selection, and
/// the row becomes the range anchor. Past the last row nothing is selected.
pub fn select_entry_index(e: &mut Editor, rows: &Vec<VisibleEntry>, index: usize)
    requires
        old(e).wf(),
    ensures
        final(e).wf(),
        same_tree(*final(e), *old(e)),
        final(e).entry_anchor == Some(index),
        index < rows@.len() ==> final(e).entry_multi@ == set![rows@[index as int].path@]
            && opt_view(final(e).selected_entry_path) == Some(rows@[index as int].path@),
        index >= rows@.len() ==> final(e).entry_multi@.is_empty() && final(e).selected_entry_path is None,
{
    e.entry_multi.clear();
    e.entry_anchor = Some(index);
    if index < rows.len() {
        e.entry_multi.insert(&rows[index].path);
        assert(e.entry_multi@ =~= set![rows@[index as int].path@]);
        e.selected_entry_path = Some(rows[index].path.clone());
    } else {
        e.selected_entry_path = None;
    }
}

/// A click on content row `index` (`range` = Shift, `toggle` = ⌘/Ctrl).
///
/// Shift replaces the selection by the eligible rows between the anchor
/// (the clicked row when there is none) and the clicked row, keeps the
/// anchor and makes the clicked row primary. ⌘ on an eligible row first
/// adopts the primary row into an empty selection, then toggles the clicked
/// row: added rows become primary; on removal the primary is cleared, or
/// becomes the single remaining row; the anchor moves to the clicked row.
/// A plain click selects the row alone (when eligible) and anchors there.
/// A click past the rows, or a ⌘-click on an ineligible row, changes nothing.
pub fn entry_click(e: &mut Editor, rows: &Vec<VisibleEntry>, index: usize, range: bool, toggle: bool)
    requires
        old(e).wf(),
    ensures
        final(e).wf(),
        same_tree(*final(e), *old(e)),
        index >= rows@.len() ==> *final(e) == *old(e),
        index < rows@.len() ==> {
            let path = rows@[index as int].path@;
            let eligible = multi_eligible(rows@[index as int]);
            if range {
                let anchor = match old(e).entry_anchor { Some(a) => a as int, None => index as int };
                let lo = if anchor < index { anchor } else { index as int };
                let hi = if anchor < index { index as int } else { anchor };
                &&& final(e).entry_multi@ == range_paths(rows@, lo, hi, true)
                &&& opt_view(final(e).selected_entry_path) == Some(path)
                &&& final(e).entry_anchor == old(e).entry_anchor
            } else if toggle {
                if !eligible {
                    *final(e) == *old(e)
                } else {
                    let seeded = if old(e).entry_multi@.is_empty() && (match opt_view(old(e).selected_entry_path) {
                        Some(p) => p != path && eligible_paths(rows@).contains(p),
                        None => false,
                    }) {
                        old(e).entry_multi@.insert(opt_view(old(e).selected_entry_path).unwrap())
                    } else {
                        old(e).entry_multi@
                    };
                    &&& final(e).entry_anchor == Some(index)
                    &&& final(e).entry_multi@ == toggled(seeded, path)
                    &&& if seeded.contains(path) {
                        &&& (seeded.remove(path).len() == 1) == (final(e).selected_entry_path is Some)
                        &&& final(e).selected_entry_path matches Some(p) ==> seeded.remove(path).contains(p@)
                    } else {
                        opt_view(final(e).selected_entry_path) == Some(path)
                    }
                }
            } else {
                &&& final(e).entry_multi@ == if eligible { set![path] } else { Set::<Seq<char>>::empty() }
                &&& final(e).entry_anchor == Some(index)
                &&& opt_view(final(e).selected_entry_path) == Some(path)
            }
        },
{
    if index >= rows.len() {
        return;
    }
    let path = &rows[index].path;
    let eligible = entry_multi_eligible(&rows[index]);
    if range {
        let anchor = match e.entry_anchor {
            Some(a) => a,
            None => index,
        };
        let (lo, hi) = if anchor < index { (anchor, index) } else { (index, anchor) };
        if hi < rows.len() {
            select_range(e, rows, lo, hi, true);
        } else {
            // The range runs past the last row: only rows up to the end count.
            select_range(e, rows, lo, rows.len() - 1, true);
            assert(e.entry_multi@ =~= range_paths(rows@, lo as int, hi as int, true)) by {
                assert forall|k: Seq<char>| range_paths(rows@, lo as int, hi as int, true).contains(k)
                    implies range_paths(rows@, lo as int, rows@.len() - 1, true).contains(k) by {
                    let t = choose|t: int| lo <= t <= hi && 0 <= t < rows@.len() && #[trigger] rows@[t].path@ == k
                        && multi_eligible(rows@[t]);
                }
            }
        }
        e.selected_entry_path = Some(path.clone());
    } else if toggle {
        if !eligible {
            return;
        }
        if e.entry_multi.len() == 0 {
            let adopt = match &e.selected_entry_path {
                Some(p) => if *p != *path {
                    let mut found = false;
                    let mut j: usize = 0;
                    while j < rows.len()
                        invariant
                            j <= rows@.len(),
                            found == exists|t: int| 0 <= t < j && #[trigger] rows@[t].path@ == p@ && multi_eligible(rows@[t]),
                        decreases rows.len() - j,
                    {
                        if rows[j].path == *p && entry_multi_eligible(&rows[j]) {
                            found = true;
                        }
                        j += 1;
                    }
                    proof {
                        if found {
                            let t = choose|t: int| 0 <= t < rows@.len() && #[trigger] rows@[t].path@ == p@ && multi_eligible(rows@[t]);
                            assert(eligible_paths(rows@).contains(p@));
                        }
                        if eligible_paths(rows@).contains(p@) {
                            let t = choose|t: int| 0 <= t <= rows@.len() - 1 && 0 <= t < rows@.len() && #[trigger] rows@[t].path@ == p@
                                && multi_eligible(rows@[t]);
                        }
                    }
                    if found { Some(p.clone()) } else { None }
                } else {
                    None
                },
                None => None,
            };
            match adopt {
                Some(p) => e.entry_multi.insert(&p),
                None => {},
            }
        }
        if e.entry_multi.contains(path) {
            e.entry_multi.remove(path);
            e.selected_entry_path = None;
            if e.entry_multi.len() == 1 {
                let only = e.entry_multi.items[0].clone();
                assert(e.entry_multi@.contains(only@)) by {
                    assert(e.entry_multi.items@[0]@ == only@);
                    assert(e.entry_multi.has(only@));
                }
                e.selected_entry_path = Some(only);
            }
        } else {
            e.entry_multi.insert(path);
            e.selected_entry_path = Some(path.clone());
        }
        e.entry_anchor = Some(index);
    } else {
        e.entry_multi.clear();
        if eligible {
            e.entry_multi.insert(path);
            assert(e.entry_multi@ =~= set![path@]);
        }
        e.entry_anchor = Some(index);
        e.selected_entry_path = Some(path.clone());
    }
}

/// `x` clamped to `0..=hi`.
pub open spec fn clamp_index(x: int, hi: int) -> int {
    if x < 0 { 0 } else if x > hi { hi } else { x }
}

/// The row index of the primary selection, if it is visible.
pub open spec fn primary_row(rows: Seq<VisibleEntry>, p: Option<Seq<char>>) -> Option<int> {
    match p {
        Some(p) => if exists|j: int| 0 <= j < rows.len() && rows[j].path@ == p {
            Some(choose|j: int| 0 <= j < rows.len() && rows[j].path@ == p && forall|t: int| 0 <= t < j ==> rows[t].path@ != p)
        } else {
            None
        },
        None => None,
    }
}

/// The row index of the primary selection, if it is visible.
fn primary_row_exec(rows: &Vec<VisibleEntry>, primary: &Option<String>) -> (r: Option<usize>)
    ensures
        match r {
            Some(j) => primary_row(rows@, opt_view(*primary)) == Some(j as int) && j < rows@.len(),
            None => primary_row(rows@, opt_view(*primary)) is None,
        },
{
    match primary {
        Some(p) => {
            let mut j: usize = 0;
            while j < rows.len()
                invariant
                    *primary == Some(*p),
                    j <= rows@.len(),
                    forall|t: int| 0 <= t < j ==> rows@[t].path@ != p@,
                decreases rows.len() - j,
            {
                if rows[j].path == *p {
                    let ghost w = choose|w: int| 0 <= w < rows@.len() && rows@[w].path@ == p@ && forall|t: int| 0 <= t < w ==> rows@[t].path@ != p@;
                    assert(w == j) by {
                        if w > j {
                            assert(rows@[j as int].path@ == p@);
                        }
                    }
                    return Some(j);
                }
                j += 1;
            }
            None
        },
        None => None,
    }
}

fn shift_step(e: &mut Editor, rows: &Vec<VisibleEntry>, delta: i32, ui_row: Option<usize>)
    requires
        old(e).wf(),
        rows@.len() > 0,
    ensures
        final(e).wf(),
        same_tree(*final(e), *old(e)),
        ({
            let cur = match primary_row(rows@, opt_view(old(e).selected_entry_path)) {
                Some(j) => j,
                None => match ui_row { Some(r) => r as int, None => 0 },
            };
            let anchor = match old(e).entry_anchor { Some(a) => a as int, None => cur };
            let new = clamp_index(cur + delta, rows@.len() - 1);
            let lo = if anchor < new { anchor } else { new };
            let hi = if anchor < new { new } else { anchor };
            &&& final(e).entry_multi@ == range_paths(rows@, lo, hi, false)
            &&& opt_view(final(e).selected_entry_path) == Some(rows@[new].path@)
            &&& final(e).entry_anchor == Some(anchor as usize)
        }),
{
    let last = rows.len() - 1;
    let found = primary_row_exec(rows, &e.selected_entry_path);
    let cur: usize = match found {
        Some(j) => j,
        None => match ui_row {
            Some(r) => r,
            None => 0,
        },
    };
    let anchor = match e.entry_anchor {
        Some(a) => a,
        None => cur,
    };
    let target: i128 = cur as i128 + delta as i128;
    let new: usize = if target < 0 { 0 } else if target > last as i128 { last } else { target as usize };
    let (lo, hi) = if anchor < new { (anchor, new) } else { (new, anchor) };
    if hi < rows.len() {
        select_range(e, rows, lo, hi, false);
    } else {
        select_range(e, rows, lo, last, false);
        assert(e.entry_multi@ =~= range_paths(rows@, lo as int, hi as int, false)) by {
            assert forall|k: Seq<char>| range_paths(rows@, lo as int, hi as int, false).contains(k)
                implies range_paths(rows@, lo as int, last as int, false).contains(k) by {
                let t = choose|t: int| lo <= t <= hi && 0 <= t < rows@.len() && #[trigger] rows@[t].path@ == k;
            }
        }
    }
    e.selected_entry_path = Some(rows[new].path.clone());
    e.entry_anchor = Some(anchor);
}

/// Arrow keys in the content list (`delta` rows; `shift` extends).
///
/// With Shift the current row is the primary row (else the UI's selected
/// row, else the first): the selection becomes every row between the anchor
/// (default: the current row) and the clamped target row, which becomes
/// primary; the anchor stays. Without Shift the target row (the first row
/// when nothing is selected) is selected alone. No rows: nothing happens.
pub fn entry_step(e: &mut Editor, rows: &Vec<VisibleEntry>, delta: i32, shift: bool, ui_row: Option<usize>)
    requires
        old(e).wf(),
    ensures
        final(e).wf(),
        same_tree(*final(e), *old(e)),
        rows@.len() == 0 ==> *final(e) == *old(e),
        rows@.len() > 0 && shift ==> {
            let cur = match primary_row(rows@, opt_view(old(e).selected_entry_path)) {
                Some(j) => j,
                None => match ui_row { Some(r) => r as int, None => 0 },
            };
            let anchor = match old(e).entry_anchor { Some(a) => a as int, None => cur };
            let new = clamp_index(cur + delta, rows@.len() - 1);
            let lo = if anchor < new { anchor } else { new };
            let hi = if anchor < new { new } else { anchor };
            &&& final(e).entry_multi@ == range_paths(rows@, lo, hi, false)
            &&& opt_view(final(e).selected_entry_path) == Some(rows@[new].path@)
            &&& final(e).entry_anchor == Some(anchor as usize)
        },
        rows@.len() > 0 && !shift ==> {
            let next = match ui_row {
                None => 0,
                Some(cur) => clamp_index(cur + delta, rows@.len() - 1),
            };
            &&& final(e).entry_anchor == Some(next as usize)
            &&& final(e).entry_multi@ == set![rows@[next].path@]
            &&& opt_view(final(e).selected_entry_path) == Some(rows@[next].path@)
        },
{
    if rows.len() == 0 {
        return;
    }
    let last = rows.len() - 1;
    if shift {
        shift_step(e, rows, delta, ui_row);
    } else {
        let next: usize = match ui_row {
            None => 0,
            Some(cur) => {
                let target: i128 = cur as i128 + delta as i128;
                if target < 0 { 0 } else if target > last as i128 { last } else { target as usize }
            },
        };
        select_entry_index(e, rows, next);
    }
}

/// "Select parent" (← on a row that is not an open folder): the nearest row
/// above the UI's selected row with a smaller depth is selected alone;
/// nothing happens at the top, without a selected row, or when no shallower
/// row lies above.
pub fn entry_select_parent(e: &mut Editor, rows: &Vec<VisibleEntry>, ui_row: Option<usize>)
    requires
        old(e).wf(),
    ensures
        final(e).wf(),
        same_tree(*final(e), *old(e)),
        match ui_row {
            Some(cur) => if 0 < cur < rows@.len() && exists|i: int| 0 <= i < cur && rows@[i].depth < rows@[cur as int].depth {
                let i = choose|i: int| 0 <= i < cur && rows@[i].depth < rows@[cur as int].depth
                    && forall|t: int| i < t < cur ==> rows@[t].depth >= rows@[cur as int].depth;
                &&& final(e).entry_anchor == Some(i as usize)
                &&& final(e).entry_multi@ == set![rows@[i].path@]
                &&& opt_view(final(e).selected_entry_path) == Some(rows@[i].path@)
            } else {
                *final(e) == *old(e)
            },
            None => *final(e) == *old(e),
        },
{
    let cur = match ui_row {
        Some(c) => c,
        None => {
            return;
        },
    };
    if cur == 0 || cur >= rows.len() {
        return;
    }
    let depth = rows[cur].depth;
    let mut k = cur;
    let mut hit: Option<usize> = None;
    while k > 0 && hit.is_none()
        invariant
            k <= cur < rows@.len(),
            depth == rows@[cur as int].depth,
            hit is None ==> forall|t: int| k <= t < cur ==> rows@[t].depth >= depth,
            hit matches Some(h) ==> h < cur && rows@[h as int].depth < depth
                && forall|t: int| h < t < cur ==> rows@[t].depth >= depth,
        decreases k,
    {
        if rows[k - 1].depth < depth {
            hit = Some(k - 1);
        }
        k -= 1;
    }
    let i = match hit {
        Some(h) => h,
        None => {
            assert(!exists|t: int| 0 <= t < cur && rows@[t].depth < rows@[cur as int].depth);
            return;
        },
    };
    let ghost w = choose|w: int| 0 <= w < cur && rows@[w].depth < rows@[cur as int].depth
        && forall|t: int| w < t < cur ==> rows@[t].depth >= rows@[cur as int].depth;
    assert(w == i) by {
        if w < i {
            assert(rows@[i as int].depth < depth);
        } else if w > i {
            assert(rows@[w].depth >= depth);
        }
    }
    select_entry_index(e, rows, i);
}

/// ⌘A: adds every eligible row to the selection and leaves no primary row.
pub fn entries_select_all(e: &mut Editor, rows: &Vec<VisibleEntry>)
    requires
        old(e).wf(),
    ensures
        final(e).wf(),
        same_tree(*final(e), *old(e)),
        final(e).entry_multi@ == old(e).entry_multi@.union(eligible_paths(rows@)),
        final(e).selected_entry_path is None,
        final(e).entry_anchor == old(e).entry_anchor,
{
    let mut j: usize = 0;
    while j < rows.len()
        invariant
            e.wf(),
            j <= rows@.len(),
            e.entry_multi@ == old(e).entry_multi@.union(range_paths(rows@, 0, j - 1, true)),
            same_tree(*e, *old(e)),
            e.entry_anchor == old(e).entry_anchor,
        decreases rows.len() - j,
    {
        let ghost before = range_paths(rows@, 0, j - 1, true);
        if entry_multi_eligible(&rows[j]) {
            e.entry_multi.insert(&rows[j].path);
        }
        assert(e.entry_multi@ =~= old(e).entry_multi@.union(range_paths(rows@, 0, j as int, true))) by {
            assert forall|k: Seq<char>| range_paths(rows@, 0, j as int, true).contains(k)
                implies e.entry_multi@.contains(k) by {
                let t = choose|t: int| 0 <= t <= j && 0 <= t < rows@.len() && #[trigger] rows@[t].path@ == k && multi_eligible(rows@[t]);
                if t < j {
                    assert(before.contains(k));
                }
            }
            assert forall|k: Seq<char>| before.contains(k) implies range_paths(rows@, 0, j as int, true).contains(k) by {
                let t = choose|t: int| 0 <= t <= j - 1 && 0 <= t < rows@.len() && #[trigger] rows@[t].path@ == k && multi_eligible(rows@[t]);
            }
            if multi_eligible(rows@[j as int]) {
                assert(range_paths(rows@, 0, j as int, true).contains(rows@[j as int].path@));
            }
        }
        j += 1;
    }
    e.selected_entry_path = None;
}

} // verus!
