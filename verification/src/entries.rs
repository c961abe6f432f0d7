//! The content list of a branch: its visible rows (registered entries and
//! the children of expanded content folders), the UI rows drawn from them,
//! and which rows take part in multi-selection.
use vstd::prelude::*;
use crate::chars::{after_last, lines};
use crate::editor::{opt_view, Editor};
use crate::model::{is_branch_role, is_branch_role_exec, KeySet, Visit};
use crate::text::{basename, fmt_size, is_latin_only, latin_only, size_label};

verus! {

/// A visible row of the content list: a top-level entry of the branch, or a
/// child of an expanded content folder.
pub struct VisibleEntry {
    /// Index in the branch's `entries[]` (`None` for folder children).
    pub entries_idx: Option<usize>,
    /// Branch-relative path (`folder/child` for folder children).
    pub path: String,
    pub role: String,
    /// Nesting level (0 = top level).
    pub depth: usize,
    pub is_dir: bool,
    pub expanded: bool,
    /// Directory that receives drops on this row.
    pub drop_dir: Vec<String>,
    /// The row's file-system path.
    pub fs_path: Vec<String>,
    pub size: Option<i64>,
    /// Title of a registered entry.
    pub title: Option<String>,
}

/// The UI row drawn for a visible entry.
pub struct EntryRow {
    pub path: String,
    /// File name shown (the path's last component).
    pub display: String,
    /// The name holds no full-height glyphs (optical centring applies).
    pub latin: bool,
    pub role: String,
    pub title: String,
    /// Size column text.
    pub size: String,
    pub is_branch: bool,
    pub is_file: bool,
    pub depth: i32,
    pub is_dir: bool,
    pub expanded: bool,
    pub in_multi: bool,
}

/// Rows that may join the multi-selection: every row but branch rows; of
/// the top level, only registered entries.
pub open spec fn multi_eligible(v: VisibleEntry) -> bool {
    !is_branch_role(v.role@) && (v.depth > 0 || v.entries_idx is Some)
}

/// Whether a row may join the multi-selection.
pub fn entry_multi_eligible(v: &VisibleEntry) -> (r: bool)
    ensures
        r == multi_eligible(*v),
{
    if is_branch_role_exec(&v.role) {
        return false;
    }
    v.depth > 0 || v.entries_idx.is_some()
}

/// The UI row of `v`.
pub open spec fn row_drawn(r: EntryRow, v: VisibleEntry, multi: Set<Seq<char>>) -> bool {
    &&& r.path@ == v.path@
    &&& r.display@ == after_last(v.path@, '/')
    &&& r.latin == latin_only(after_last(v.path@, '/'))
    &&& r.role@ == v.role@
    &&& r.title@ == match v.title {
        Some(t) => t@,
        None => Seq::<char>::empty(),
    }
    &&& r.size@ == size_label(v.size)
    &&& r.is_branch == is_branch_role(v.role@)
    &&& r.is_file == !v.is_dir
    &&& r.depth == v.depth as i32
    &&& r.is_dir == v.is_dir
    &&& r.expanded == v.expanded
    &&& r.in_multi == multi.contains(v.path@)
}

/// The UI rows of the visible entries, with the multi-selection marks.
pub fn visible_to_rows(vis: &Vec<VisibleEntry>, multi: &KeySet) -> (r: Vec<EntryRow>)
    ensures
        r@.len() == vis@.len(),
        forall|i: int| 0 <= i < vis@.len() ==> row_drawn(#[trigger] r@[i], vis@[i], multi@),
{
    let mut out: Vec<EntryRow> = Vec::new();
    let mut i: usize = 0;
    while i < vis.len()
        invariant
            i <= vis@.len(),
            out@.len() == i,
            forall|j: int| 0 <= j < i ==> row_drawn(#[trigger] out@[j], vis@[j], multi@),
        decreases vis.len() - i,
    {
        let v = &vis[i];
        let display = basename(v.path.as_str());
        let latin = is_latin_only(display.as_str());
        let title = match &v.title {
            Some(t) => t.clone(),
            None => String::new(),
        };
        out.push(EntryRow {
            path: v.path.clone(),
            display,
            latin,
            role: v.role.clone(),
            title,
            size: fmt_size(v.size),
            is_branch: is_branch_role_exec(&v.role),
            is_file: !v.is_dir,
            depth: v.depth as i32,
            is_dir: v.is_dir,
            expanded: v.expanded,
            in_multi: multi.contains(&v.path),
        });
        i += 1;
    }
    out
}

/// The selected row of the content list as the UI reports it (negative =
/// none).
pub fn selected_row_index(idx: i32) -> (r: Option<usize>)
    ensures
        idx < 0 ==> r is None,
        idx >= 0 ==> r == Some(idx as usize),
{
    if idx < 0 {
        None
    } else {
        Some(idx as usize)
    }
}

/// The selection an embedded content panel highlights: the multi-selection
/// for the active branch's panel, nothing for any other branch (entries of
/// different branches often share names).
pub fn node_multi<'a>(e: &'a Editor, visit_idx: usize, none: &'a KeySet) -> (r: &'a KeySet)
    ensures
        e.selected_idx_in_visits_spec() == Some(visit_idx) ==> *r == e.entry_multi,
        e.selected_idx_in_visits_spec() != Some(visit_idx) ==> *r == *none,
{
    match e.selected_idx_in_visits() {
        Some(i) => if i == visit_idx { &e.entry_multi } else { none },
        None => none,
    }
}

/// Role of a content path: its registration's role, else `dir` or `payload`
/// by what is on disk (`on_disk`: `None` = missing, `Some(is_dir)`).
pub open spec fn role_for(v: Visit, path: Seq<char>, on_disk: Option<bool>) -> Option<Seq<char>> {
    let reg: Option<int> = match v.meta {
        Some(m) => if exists|i: int| 0 <= i < m.entries.len() && m.entries@[i].path@ == path {
            Some(choose|i: int| 0 <= i < m.entries.len() && m.entries@[i].path@ == path
                && forall|j: int| 0 <= j < i ==> m.entries@[j].path@ != path)
        } else {
            None
        },
        None => None,
    };
    match reg {
        Some(i) => Some(v.meta.unwrap().entries@[i].role@),
        None => match on_disk {
            None => None,
            Some(true) => Some("dir"@),
            Some(false) => Some("payload"@),
        },
    }
}

/// The role of a content path (registered role first, else inferred from
/// the file system).
pub fn entry_role_for(v: &Visit, path: &String, on_disk: Option<bool>) -> (r: Option<String>)
    ensures
        opt_view(r) == role_for(*v, path@, on_disk),
{
    match &v.meta {
        Some(m) => {
            let mut i: usize = 0;
            while i < m.entries.len()
                invariant
                    v.meta == Some(*m),
                    i <= m.entries.len(),
                    forall|j: int| 0 <= j < i ==> m.entries@[j].path@ != path@,
                decreases m.entries.len() - i,
            {
                if m.entries[i].path == *path {
                    let ghost w = choose|w: int| 0 <= w < m.entries.len() && m.entries@[w].path@ == path@
                        && forall|j: int| 0 <= j < w ==> m.entries@[j].path@ != path@;
                    assert(w == i) by {
                        if w > i {
                            assert(m.entries@[i as int].path@ == path@);
                        }
                    }
                    return Some(m.entries[i].role.clone());
                }
                i += 1;
            }
        },
        None => {},
    }
    match on_disk {
        None => None,
        Some(true) => Some("dir".to_owned()),
        Some(false) => Some("payload".to_owned()),
    }
}

} // verus!
