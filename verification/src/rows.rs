//! Building a branch's content rows: its registered entries in order, each
//! open content folder followed by its listed children (system clutter
//! hidden), recursively.
use vstd::prelude::*;
use crate::chars::{chars_of, concat, string_of};
use crate::editor::Editor;
use crate::entries::VisibleEntry;
use crate::model::{entry_is_branch, Entry, KeySet};
use crate::multi::{lemma_text_lt_irrefl, lemma_text_lt_total, lemma_text_lt_trans, text_lt, text_lt_exec};
use crate::text::{is_noise_name, noise_name};
use crate::transfer::{comp_views, path_text, path_text_exec, rel_components, rel_components_exec};

verus! {

/// One child of a listed folder.
pub struct DiskChild {
    pub name: String,
    pub is_dir: bool,
    /// Byte size of a file.
    pub size: Option<i64>,
}

impl DiskChild {
    /// A field-by-field copy.
    pub fn copy(&self) -> (r: DiskChild)
        ensures
            r == *self,
    {
        DiskChild { name: self.name.clone(), is_dir: self.is_dir, size: self.size }
    }
}

/// The children of one folder as read from disk, sorted by name.
pub struct FolderListing {
    /// The folder's absolute path, one component per item.
    pub dir: Vec<String>,
    pub children: Vec<DiskChild>,
}

/// A content row as plain values.
pub struct RowDesc {
    pub entries_idx: Option<int>,
    pub path: Seq<char>,
    pub role: Seq<char>,
    pub depth: int,
    pub is_dir: bool,
    pub expanded: bool,
    pub drop_dir: Seq<Seq<char>>,
    pub fs_path: Seq<Seq<char>>,
    pub size: Option<i64>,
    pub title: Option<Seq<char>>,
}

/// The first listing of folder `dir`.
pub open spec fn listing_index(ls: Seq<FolderListing>, dir: Seq<Seq<char>>) -> Option<int> {
    if exists|j: int| 0 <= j < ls.len() && comp_views(ls[j].dir@) == dir {
        Some(choose|j: int| 0 <= j < ls.len() && comp_views(ls[j].dir@) == dir
            && forall|t: int| 0 <= t < j ==> comp_views(ls[t].dir@) != dir)
    } else {
        None
    }
}

/// The largest number of components of a listed folder.
pub open spec fn max_depth(ls: Seq<FolderListing>) -> int
    decreases ls.len(),
{
    if ls.len() == 0 {
        0
    } else {
        let m = max_depth(ls.drop_last());
        if ls.last().dir@.len() > m { ls.last().dir@.len() as int } else { m }
    }
}

/// The rows of the children `kids` of the open folder `fs_dir` (branch
/// path `rel`, nesting `depth`): clutter hidden; each child row, then the
/// rows of an open listed sub-folder.
pub open spec fn child_rows(
    ls: Seq<FolderListing>,
    exp: Set<Seq<char>>,
    fs_dir: Seq<Seq<char>>,
    rel: Seq<char>,
    depth: int,
    kids: Seq<DiskChild>,
) -> Seq<RowDesc>
    decreases max_depth(ls) - fs_dir.len(), kids.len(),
{
    if kids.len() == 0 {
        Seq::empty()
    } else {
        let before = child_rows(ls, exp, fs_dir, rel, depth, kids.drop_last());
        let c = kids.last();
        let name = c.name@;
        if noise_name(name) {
            before
        } else {
            let cp = fs_dir.push(name);
            let crel = rel + "/"@ + name;
            let expd = c.is_dir && exp.contains(path_text(cp));
            let row = RowDesc {
                entries_idx: None,
                path: crel,
                role: if c.is_dir { "dir"@ } else { "file"@ },
                depth,
                is_dir: c.is_dir,
                expanded: expd,
                drop_dir: if c.is_dir { cp } else { fs_dir },
                fs_path: cp,
                size: if c.is_dir { None } else { c.size },
                title: None,
            };
            let below = if expd && cp.len() <= max_depth(ls) {
                match listing_index(ls, cp) {
                    Some(j) => child_rows(ls, exp, cp, crel, depth + 1, ls[j].children@),
                    None => Seq::empty(),
                }
            } else {
                Seq::empty()
            };
            before.push(row) + below
        }
    }
}

pub open spec fn opt_text(o: Option<String>) -> Option<Seq<char>> {
    match o {
        Some(s) => Some(s@),
        None => None,
    }
}

/// The rows of a branch at `dir` with entries `es`: every content entry in
/// order (branch registrations skipped), an open listed folder followed by
/// its children.
pub open spec fn entry_rows(ls: Seq<FolderListing>, exp: Set<Seq<char>>, dir: Seq<Seq<char>>, es: Seq<Entry>) -> Seq<RowDesc>
    decreases es.len(),
{
    if es.len() == 0 {
        Seq::empty()
    } else {
        let before = entry_rows(ls, exp, dir, es.drop_last());
        let en = es.last();
        if entry_is_branch(en) {
            before
        } else {
            let is_dir = en.role@ == "dir"@;
            let fs = dir + rel_components(en.path@);
            let expd = is_dir && exp.contains(path_text(fs));
            let row = RowDesc {
                entries_idx: Some(es.len() - 1),
                path: en.path@,
                role: en.role@,
                depth: 0,
                is_dir,
                expanded: expd,
                drop_dir: if is_dir { fs } else { dir },
                fs_path: fs,
                size: en.size,
                title: opt_text(en.title),
            };
            let below = if expd && fs.len() <= max_depth(ls) {
                match listing_index(ls, fs) {
                    Some(j) => child_rows(ls, exp, fs, en.path@, 1, ls[j].children@),
                    None => Seq::empty(),
                }
            } else {
                Seq::empty()
            };
            before.push(row) + below
        }
    }
}

/// `v` is the row `d`.
pub open spec fn row_is(v: VisibleEntry, d: RowDesc) -> bool {
    &&& match v.entries_idx {
        Some(i) => d.entries_idx == Some(i as int),
        None => d.entries_idx is None,
    }
    &&& v.path@ == d.path
    &&& v.role@ == d.role
    &&& v.depth == d.depth
    &&& v.is_dir == d.is_dir
    &&& v.expanded == d.expanded
    &&& comp_views(v.drop_dir@) == d.drop_dir
    &&& comp_views(v.fs_path@) == d.fs_path
    &&& v.size == d.size
    &&& opt_text(v.title) == d.title
}

/// `out[base..]` holds exactly the rows `ds`.
pub open spec fn rows_are(out: Seq<VisibleEntry>, base: int, ds: Seq<RowDesc>) -> bool {
    &&& out.len() == base + ds.len()
    &&& forall|k: int| 0 <= k < ds.len() ==> row_is(#[trigger] out[base + k], ds[k])
}

proof fn lemma_listing_depth(ls: Seq<FolderListing>, j: int)
    requires
        0 <= j < ls.len(),
    ensures
        ls[j].dir@.len() <= max_depth(ls),
        max_depth(ls) >= 0,
    decreases ls.len(),
{
    if j < ls.len() - 1 {
        lemma_listing_depth(ls.drop_last(), j);
    } else if ls.len() > 1 {
        lemma_listing_depth(ls.drop_last(), 0);
    }
}

fn find_listing(ls: &Vec<FolderListing>, dir: &Vec<String>) -> (r: Option<usize>)
    ensures
        match r {
            Some(j) => listing_index(ls@, comp_views(dir@)) == Some(j as int) && j < ls@.len()
                && comp_views(ls@[j as int].dir@) == comp_views(dir@),
            None => listing_index(ls@, comp_views(dir@)) is None,
        },
{
    let mut j: usize = 0;
    while j < ls.len()
        invariant
            j <= ls@.len(),
            forall|t: int| 0 <= t < j ==> comp_views(ls@[t].dir@) != comp_views(dir@),
        decreases ls.len() - j,
    {
        if ls[j].dir.len() == dir.len() && crate::transfer::dir_prefix_exec(&ls[j].dir, dir) {
            assert(comp_views(ls@[j as int].dir@) =~= comp_views(dir@)) by {
                assert(comp_views(dir@).take(dir@.len() as int) =~= comp_views(dir@));
            }
            let ghost w = choose|w: int| 0 <= w < ls@.len() && comp_views(ls@[w].dir@) == comp_views(dir@)
                && forall|t: int| 0 <= t < w ==> comp_views(ls@[t].dir@) != comp_views(dir@);
            assert(w == j) by {
                if w > j {
                    assert(comp_views(ls@[j as int].dir@) == comp_views(dir@));
                }
            }
            return Some(j);
        }
        proof {
            if comp_views(ls@[j as int].dir@) == comp_views(dir@) {
                assert(ls@[j as int].dir@.len() == dir@.len());
                assert(crate::transfer::dir_prefix(comp_views(ls@[j as int].dir@), comp_views(dir@))) by {
                    assert(comp_views(dir@).take(dir@.len() as int) =~= comp_views(dir@));
                }
            }
        }
        j += 1;
    }
    None
}

fn copy_comps(d: &Vec<String>) -> (r: Vec<String>)
    ensures
        r@ == d@,
{
    let mut out: Vec<String> = Vec::new();
    let mut i: usize = 0;
    while i < d.len()
        invariant
            i <= d@.len(),
            out@ == d@.take(i as int),
        decreases d.len() - i,
    {
        out.push(d[i].clone());
        i += 1;
        assert(out@ =~= d@.take(i as int));
    }
    assert(d@.take(d@.len() as int) =~= d@);
    out
}

/// Appends the rows of the listed children of the open folder `fs_dir`.
#[verifier::rlimit(60)]
pub fn push_dir_children(
    ls: &Vec<FolderListing>,
    exp: &KeySet,
    fs_dir: &Vec<String>,
    rel: &String,
    depth: usize,
    out: &mut Vec<VisibleEntry>,
)
    requires
        max_depth(ls@) < usize::MAX,
        depth <= fs_dir@.len() + 1,
        fs_dir@.len() <= max_depth(ls@),
    ensures
        forall|k: int| 0 <= k < old(out)@.len() ==> final(out)@[k] == old(out)@[k],
        rows_are(final(out)@, old(out)@.len() as int, match listing_index(ls@, comp_views(fs_dir@)) {
            Some(j) => child_rows(ls@, exp@, comp_views(fs_dir@), rel@, depth as int, ls@[j].children@),
            None => Seq::empty(),
        }),
    decreases max_depth(ls@) - fs_dir@.len(),
{
    let ghost fd = comp_views(fs_dir@);
    let ghost base = old(out)@.len() as int;
    let ghost start = out@;
    let j = match find_listing(ls, fs_dir) {
        Some(j) => j,
        None => {
            return;
        },
    };
    let kids = &ls[j].children;
    let mut k: usize = 0;
    assert(kids@.take(0) =~= Seq::<DiskChild>::empty());
    while k < kids.len()
        invariant
            max_depth(ls@) < usize::MAX,
            depth <= fs_dir@.len() + 1,
            fs_dir@.len() <= max_depth(ls@),
            fd == comp_views(fs_dir@),
            kids@ == ls@[j as int].children@,
            k <= kids@.len(),
            0 <= base <= out@.len(),
            forall|t: int| 0 <= t < base ==> out@[t] == start[t],
            rows_are(out@, base, child_rows(ls@, exp@, fd, rel@, depth as int, kids@.take(k as int))),
        decreases kids@.len() - k,
    {
        let ghost done = child_rows(ls@, exp@, fd, rel@, depth as int, kids@.take(k as int));
        assert(kids@.take(k + 1).drop_last() =~= kids@.take(k as int));
        assert(kids@.take(k + 1).last() == kids@[k as int]);
        let c = &kids[k];
        if !is_noise_name(c.name.as_str()) {
            let mut cp = copy_comps(fs_dir);
            cp.push(c.name.clone());
            assert(comp_views(cp@) =~= fd.push(c.name@));
            let mut slash: Vec<char> = Vec::new();
            slash.push('/');
            assert(slash@ == "/"@) by {
                reveal_strlit("/");
            }
            let crel = string_of(&concat(&concat(&chars_of(rel.as_str()), &slash), &chars_of(c.name.as_str())));
            let key = path_text_exec(&cp);
            let expd = c.is_dir && exp.contains(&key);
            let row = VisibleEntry {
                entries_idx: None,
                path: crel.clone(),
                role: if c.is_dir { "dir".to_owned() } else { "file".to_owned() },
                depth,
                is_dir: c.is_dir,
                expanded: expd,
                drop_dir: if c.is_dir { copy_comps(&cp) } else { copy_comps(fs_dir) },
                fs_path: copy_comps(&cp),
                size: if c.is_dir { None } else { c.size },
                title: None,
            };
            let ghost mid = out@;
            out.push(row);
            let ghost after_row = out@;
            let listed = if expd { find_listing(ls, &cp) } else { None };
            match listed {
                Some(jj) => {
                    proof {
                        lemma_listing_depth(ls@, jj as int);
                        assert(comp_views(ls@[jj as int].dir@) == comp_views(cp@));
                        assert(comp_views(ls@[jj as int].dir@).len() == ls@[jj as int].dir@.len());
                        assert(cp@.len() <= max_depth(ls@));
                    }
                    push_dir_children(ls, exp, &cp, &crel, depth + 1, out);
                },
                None => {},
            }
            proof {
                let cpv = fd.push(c.name@);
                let below = if expd && cpv.len() <= max_depth(ls@) {
                    match listing_index(ls@, cpv) {
                        Some(jj) => child_rows(ls@, exp@, cpv, crel@, depth + 1, ls@[jj].children@),
                        None => Seq::<RowDesc>::empty(),
                    }
                } else {
                    Seq::<RowDesc>::empty()
                };
                if expd && cpv.len() <= max_depth(ls@) {
                    assert(listed is Some <==> listing_index(ls@, cpv) is Some);
                }
                if expd && !(cpv.len() <= max_depth(ls@)) {
                    if listing_index(ls@, cpv) is Some {
                        let jj = listing_index(ls@, cpv).unwrap();
                        lemma_listing_depth(ls@, jj);
                        assert(comp_views(ls@[jj].dir@).len() == ls@[jj].dir@.len());
                    }
                }
                let whole = child_rows(ls@, exp@, fd, rel@, depth as int, kids@.take(k + 1));
                assert(whole == done.push(RowDesc {
                    entries_idx: None,
                    path: crel@,
                    role: if c.is_dir { "dir"@ } else { "file"@ },
                    depth: depth as int,
                    is_dir: c.is_dir,
                    expanded: expd,
                    drop_dir: if c.is_dir { cpv } else { fd },
                    fs_path: cpv,
                    size: if c.is_dir { None } else { c.size },
                    title: None,
                }) + below);
                assert(rows_are(out@, base, whole)) by {
                    assert forall|t: int| 0 <= t < whole.len() implies row_is(#[trigger] out@[base + t], whole[t]) by {
                        if t < done.len() {
                            assert(out@[base + t] == mid[base + t]);
                        } else if t == done.len() {
                            assert(out@[base + t] == after_row[base + t]);
                        } else {
                            let q = t - done.len() - 1;
                            assert(out@[after_row.len() + q] == out@[base + t]);
                        }
                    }
                }
            }
        } else {
            assert(child_rows(ls@, exp@, fd, rel@, depth as int, kids@.take(k + 1)) == done);
        }
        k += 1;
    }
    assert(kids@.take(kids@.len() as int) =~= kids@);
}

/// `r` holds the content rows of branch `visit` (none outside the scan or
/// without a parsed `._meta`).
pub open spec fn branch_rows_ok(r: Seq<VisibleEntry>, e: Editor, visit: int, ls: Seq<FolderListing>) -> bool {
    match e.scan {
        Some(s) => if 0 <= visit < s.visits.len() && s.visits[visit].meta is Some {
            rows_are(r, 0, entry_rows(ls, e.expanded_dirs@, comp_views(s.visits[visit].dir@),
                s.visits[visit].meta.unwrap().entries@))
        } else {
            r.len() == 0
        },
        None => r.len() == 0,
    }
}

/// The content rows of branch `visit_idx` (no rows without a scan, outside
/// it, or without a parsed `._meta`); `ls` holds the listings of the open
/// content folders.
pub fn build_entry_rows_for(e: &Editor, visit_idx: usize, ls: &Vec<FolderListing>) -> (r: Vec<VisibleEntry>)
    requires
        max_depth(ls@) < usize::MAX,
    ensures
        branch_rows_ok(r@, *e, visit_idx as int, ls@),
{
    let mut out: Vec<VisibleEntry> = Vec::new();
    let s = match &e.scan {
        Some(s) => s,
        None => {
            return out;
        },
    };
    if visit_idx >= s.visits.len() {
        return out;
    }
    let visit = &s.visits[visit_idx];
    let m = match &visit.meta {
        Some(m) => m,
        None => {
            return out;
        },
    };
    let ghost dir = comp_views(visit.dir@);
    let es = &m.entries;
    let mut i: usize = 0;
    assert(es@.take(0) =~= Seq::<Entry>::empty());
    while i < es.len()
        invariant
            max_depth(ls@) < usize::MAX,
            dir == comp_views(visit.dir@),
            i <= es@.len(),
            rows_are(out@, 0, entry_rows(ls@, e.expanded_dirs@, dir, es@.take(i as int))),
        decreases es@.len() - i,
    {
        let ghost done = entry_rows(ls@, e.expanded_dirs@, dir, es@.take(i as int));
        assert(es@.take(i + 1).drop_last() =~= es@.take(i as int));
        assert(es@.take(i + 1).last() == es@[i as int]);
        let en = &es[i];
        if !en.is_branch() {
            let is_dir = en.role == "dir".to_owned();
            let rel = rel_components_exec(en.path.as_str());
            let mut fs = copy_comps(&visit.dir);
            let mut t: usize = 0;
            while t < rel.len()
                invariant
                    t <= rel@.len(),
                    fs@ == visit.dir@ + rel@.take(t as int),
                decreases rel.len() - t,
            {
                fs.push(rel[t].clone());
                t += 1;
                assert(fs@ =~= visit.dir@ + rel@.take(t as int));
            }
            assert(rel@.take(rel@.len() as int) =~= rel@);
            assert(comp_views(fs@) =~= dir + rel_components(en.path@));
            let key = path_text_exec(&fs);
            let expd = is_dir && e.expanded_dirs.contains(&key);
            let title = crate::model::copy_opt(&en.title);
            let row = VisibleEntry {
                entries_idx: Some(i),
                path: en.path.clone(),
                role: en.role.clone(),
                depth: 0,
                is_dir,
                expanded: expd,
                drop_dir: if is_dir { copy_comps(&fs) } else { copy_comps(&visit.dir) },
                fs_path: copy_comps(&fs),
                size: en.size,
                title,
            };
            let ghost mid = out@;
            out.push(row);
            let ghost after_row = out@;
            let listed = if expd { find_listing(ls, &fs) } else { None };
            match listed {
                Some(jj) => {
                    proof {
                        lemma_listing_depth(ls@, jj as int);
                        assert(comp_views(ls@[jj as int].dir@) == comp_views(fs@));
                        assert(comp_views(ls@[jj as int].dir@).len() == ls@[jj as int].dir@.len());
                        assert(fs@.len() <= max_depth(ls@));
                    }
                    push_dir_children(ls, &e.expanded_dirs, &fs, &en.path, 1, &mut out);
                },
                None => {},
            }
            proof {
                reveal_strlit("dir");
                let fsv = dir + rel_components(en.path@);
                let below = if expd && fsv.len() <= max_depth(ls@) {
                    match listing_index(ls@, fsv) {
                        Some(jj) => child_rows(ls@, e.expanded_dirs@, fsv, en.path@, 1, ls@[jj].children@),
                        None => Seq::<RowDesc>::empty(),
                    }
                } else {
                    Seq::<RowDesc>::empty()
                };
                if expd && !(fsv.len() <= max_depth(ls@)) {
                    if listing_index(ls@, fsv) is Some {
                        let jj = listing_index(ls@, fsv).unwrap();
                        lemma_listing_depth(ls@, jj);
                        assert(comp_views(ls@[jj].dir@).len() == ls@[jj].dir@.len());
                    }
                }
                let whole = entry_rows(ls@, e.expanded_dirs@, dir, es@.take(i + 1));
                assert(whole == done.push(RowDesc {
                    entries_idx: Some(i as int),
                    path: en.path@,
                    role: en.role@,
                    depth: 0,
                    is_dir,
                    expanded: expd,
                    drop_dir: if is_dir { fsv } else { dir },
                    fs_path: fsv,
                    size: en.size,
                    title: opt_text(en.title),
                }) + below);
                assert(rows_are(out@, 0, whole)) by {
                    assert forall|t: int| 0 <= t < whole.len() implies row_is(#[trigger] out@[0 + t], whole[t]) by {
                        if t < done.len() {
                            assert(out@[t] == mid[t]);
                        } else if t == done.len() {
                            assert(out@[t] == after_row[t]);
                        } else {
                            let q = t - done.len() - 1;
                            assert(out@[after_row.len() + q] == out@[t]);
                        }
                    }
                }
            }
        } else {
            assert(entry_rows(ls@, e.expanded_dirs@, dir, es@.take(i + 1)) == done);
        }
        i += 1;
    }
    assert(es@.take(es@.len() as int) =~= es@);
    out
}

/// The content rows of the active branch (none without one).
pub fn build_entry_rows(e: &Editor, ls: &Vec<FolderListing>) -> (r: Vec<VisibleEntry>)
    requires
        max_depth(ls@) < usize::MAX,
    ensures
        match e.selected_idx_in_visits_spec() {
            Some(i) => branch_rows_ok(r@, *e, i as int, ls@),
            None => r@.len() == 0,
        },
{
    match e.selected_idx_in_visits() {
        Some(i) => build_entry_rows_for(e, i, ls),
        None => Vec::new(),
    }
}

/// Children in name order (no later name sorts before an earlier one).
pub open spec fn names_sorted(cs: Seq<DiskChild>) -> bool {
    forall|i: int, j: int| 0 <= i < j < cs.len() ==> !text_lt(#[trigger] cs[j].name@, #[trigger] cs[i].name@)
}

/// A folder's children sorted by name (character order), as a listing
/// shows them; the children are the same, only their order changes.
pub fn sort_children(children: Vec<DiskChild>) -> (r: Vec<DiskChild>)
    ensures
        r@.to_multiset() == children@.to_multiset(),
        names_sorted(r@),
{
    let mut out: Vec<DiskChild> = Vec::new();
    let mut input = children;
    let ghost all = input@;
    let mut i: usize = 0;
    assert(all.take(0) =~= Seq::<DiskChild>::empty());
    while i < input.len()
        invariant
            input@ == all,
            i <= all.len(),
            out@.to_multiset() == all.take(i as int).to_multiset(),
            names_sorted(out@),
        decreases input.len() - i,
    {
        let x = input[i].copy();
        let mut k: usize = 0;
        while k < out.len() && !text_lt_exec(&x.name, &out[k].name)
            invariant
                k <= out@.len(),
                forall|m: int| 0 <= m < k ==> !text_lt(x.name@, #[trigger] out@[m].name@),
            decreases out.len() - k,
        {
            k += 1;
        }
        let ghost before = out@;
        proof {
            assert forall|m: int| k <= m < before.len() implies !text_lt(#[trigger] before[m].name@, x.name@) by {
                assert(text_lt(x.name@, before[k as int].name@));
                if m > k {
                    assert(!text_lt(before[m].name@, before[k as int].name@));
                    if before[m].name@ != before[k as int].name@ {
                        lemma_text_lt_total(before[m].name@, before[k as int].name@);
                        lemma_text_lt_trans(x.name@, before[k as int].name@, before[m].name@);
                    }
                }
                if text_lt(before[m].name@, x.name@) {
                    if before[m].name@ == before[k as int].name@ {
                        lemma_text_lt_trans(x.name@, before[k as int].name@, x.name@);
                    } else {
                        lemma_text_lt_trans(x.name@, before[m].name@, x.name@);
                    }
                    lemma_text_lt_irrefl(x.name@);
                }
            }
        }
        out.insert(k, x);
        proof {
            assert(out@ == before.insert(k as int, all[i as int]));
            assert(out@[k as int] == x);
            assert forall|a: int, b: int| 0 <= a < b < out@.len() implies !text_lt(#[trigger] out@[b].name@, #[trigger] out@[a].name@) by {
                if b < k {
                    assert(out@[a] == before[a] && out@[b] == before[b]);
                } else if b == k {
                    assert(out@[a] == before[a]);
                    assert(!text_lt(x.name@, before[a].name@));
                } else if a < k {
                    assert(out@[a] == before[a] && out@[b] == before[b - 1]);
                    assert(!text_lt(before[b - 1].name@, before[a].name@));
                } else if a == k {
                    assert(out@[b] == before[b - 1]);
                    assert(!text_lt(before[b - 1].name@, x.name@));
                } else {
                    assert(out@[a] == before[a - 1] && out@[b] == before[b - 1]);
                    assert(!text_lt(before[b - 1].name@, before[a - 1].name@));
                }
            }
            assert(all.take(i + 1) =~= all.take(i as int).push(all[i as int]));
            vstd::seq_lib::to_multiset_insert(before, k as int, all[i as int]);
            vstd::seq_lib::to_multiset_build(all.take(i as int), all[i as int]);
        }
        i += 1;
    }
    assert(all.take(all.len() as int) =~= all);
    out
}

} // verus!
