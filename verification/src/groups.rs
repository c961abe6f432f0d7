//! Moving content entries between branches: where a drop lands in the
//! target panel, how the moved entries enter the target's content order,
//! and the status line that reports the outcome.
use vstd::prelude::*;
use crate::branch_move::{entry_pos, entry_pos_exec};
use crate::chars::{after_last, chars_of, concat, contains_sub, dec, dec_exec, join, join_exec, matches_at, string_of};
use crate::editor::{opt_view, Editor};
use crate::entries::VisibleEntry;
use crate::model::{entry_is_branch, is_branch_role, is_branch_role_exec, Entry};
use crate::selection::same_tree;
use crate::text::{basename, copy_candidate, dedup_name, first_free_copy, name_list, name_list_of, strs};
use crate::transfer::{child_path_of, comp_views, dir_prefix, dir_prefix_exec, in_dir_child_path};

verus! {

/// Number of registered rows (top-level entries) among `rows[..n]`.
pub open spec fn registered_before(rows: Seq<VisibleEntry>, n: int) -> nat
    decreases n,
{
    if n <= 0 || n > rows.len() {
        0
    } else {
        registered_before(rows, n - 1) + if rows[n - 1].entries_idx is Some { 1nat } else { 0nat }
    }
}

/// Where a drop on the target panel lands: into a folder (its directory),
/// and/or at a position of the target's top-level content order (`None` =
/// at the end). A folder row takes the drop only in its lower half
/// (`into_dir`); a registered row puts the items before it, or after it when
/// `after`; anything else (the panel's end, folder children) appends.
pub open spec fn drop_target(rows: Seq<VisibleEntry>, at_end: bool, to_index: int, after: bool, into_dir: bool)
    -> (Option<Seq<String>>, Option<int>)
{
    if at_end || to_index >= rows.len() {
        (None, None)
    } else {
        let row = rows[to_index];
        if row.is_dir && into_dir {
            (Some(row.drop_dir@), None)
        } else if row.entries_idx is Some {
            (None, Some(registered_before(rows, to_index) + if after { 1int } else { 0int }))
        } else {
            (None, None)
        }
    }
}

/// Resolves the drop target of a move onto a content panel.
pub fn resolve_drop(rows: &Vec<VisibleEntry>, at_end: bool, to_index: usize, after: bool, into_dir: bool)
    -> (r: (Option<Vec<String>>, Option<usize>))
    ensures
        ({
            let (f, p) = drop_target(rows@, at_end, to_index as int, after, into_dir);
            &&& match r.0 { Some(d) => f == Some(d@), None => f is None }
            &&& match r.1 { Some(q) => p == Some(q as int), None => p is None }
        }),
{
    if at_end || to_index >= rows.len() {
        return (None, None);
    }
    let row = &rows[to_index];
    if row.is_dir && into_dir {
        let mut d: Vec<String> = Vec::new();
        let mut i: usize = 0;
        while i < row.drop_dir.len()
            invariant
                i <= row.drop_dir@.len(),
                d@ == row.drop_dir@.take(i as int),
            decreases row.drop_dir.len() - i,
        {
            d.push(row.drop_dir[i].clone());
            i += 1;
            assert(d@ =~= row.drop_dir@.take(i as int));
        }
        assert(row.drop_dir@.take(row.drop_dir@.len() as int) =~= row.drop_dir@);
        return (Some(d), None);
    }
    if row.entries_idx.is_some() {
        let mut before: usize = 0;
        let mut j: usize = 0;
        while j < to_index
            invariant
                j <= to_index < rows@.len(),
                before == registered_before(rows@, j as int),
                before <= j,
            decreases to_index - j,
        {
            if rows[j].entries_idx.is_some() {
                before += 1;
            }
            j += 1;
        }
        return (None, Some(if after { before + 1 } else { before }));
    }
    (None, None)
}

/// The content (non-branch) entries, in order.
pub open spec fn content_entries(es: Seq<Entry>) -> Seq<Entry>
    decreases es.len(),
{
    if es.len() == 0 {
        es
    } else {
        let r = content_entries(es.drop_last());
        if entry_is_branch(es.last()) { r } else { r.push(es.last()) }
    }
}

/// Copies of the content entries of `es`.
pub fn content_entries_exec(es: &Vec<Entry>) -> (r: Vec<Entry>)
    ensures
        r@ == content_entries(es@),
{
    let mut out: Vec<Entry> = Vec::new();
    let mut i: usize = 0;
    while i < es.len()
        invariant
            i <= es@.len(),
            out@ == content_entries(es@.take(i as int)),
        decreases es.len() - i,
    {
        assert(es@.take(i + 1).drop_last() =~= es@.take(i as int));
        if !es[i].is_branch() {
            out.push(es[i].copy());
        }
        i += 1;
    }
    assert(es@.take(es@.len() as int) =~= es@);
    out
}

/// Pulls the moved entries out of `seq`, in the order of `moved` (names not
/// found are skipped): the remaining entries and the pulled ones.
pub open spec fn pull_members(seq: Seq<Entry>, moved: Seq<Seq<char>>) -> (Seq<Entry>, Seq<Entry>)
    decreases moved.len(),
{
    if moved.len() == 0 {
        (seq, Seq::<Entry>::empty())
    } else {
        match entry_pos(seq, moved[0]) {
            Some(i) => {
                let (rest, members) = pull_members(seq.remove(i), moved.drop_first());
                (rest, seq![seq[i]] + members)
            },
            None => pull_members(seq, moved.drop_first()),
        }
    }
}

/// The target's content order after a group lands at `pos`: the moved
/// entries leave their places and enter together, in move order, at `pos`
/// (clamped to the end) of the remaining order.
pub open spec fn group_order(seq: Seq<Entry>, moved: Seq<Seq<char>>, pos: int) -> Seq<Entry> {
    let (rest, members) = pull_members(seq, moved);
    let at = if pos < rest.len() { pos } else { rest.len() as int };
    rest.take(at) + members + rest.skip(at)
}

proof fn lemma_pull_step(seq: Seq<Entry>, moved: Seq<Seq<char>>, k: int)
    requires
        0 <= k < moved.len(),
    ensures
        ({
            let (r0, m0) = pull_members(seq, moved.take(k));
            let (r1, m1) = pull_members(seq, moved.take(k + 1));
            match entry_pos(r0, moved[k]) {
                Some(i) => r1 == r0.remove(i) && m1 == m0.push(r0[i]),
                None => r1 == r0 && m1 == m0,
            }
        }),
    decreases k,
{
    if k == 0 {
        assert(moved.take(0) =~= Seq::<Seq<char>>::empty());
        assert(moved.take(1).drop_first() =~= Seq::<Seq<char>>::empty());
        assert(moved.take(1)[0] == moved[0]);
        assert(pull_members(seq, moved.take(0)) == (seq, Seq::<Entry>::empty()));
        match entry_pos(seq, moved[0]) {
            Some(i) => {
                assert(pull_members(seq.remove(i), Seq::<Seq<char>>::empty()) == (seq.remove(i), Seq::<Entry>::empty()));
                assert(seq![seq[i]] + Seq::<Entry>::empty() =~= Seq::<Entry>::empty().push(seq[i]));
                assert(pull_members(seq, moved.take(1)) == (seq.remove(i), seq![seq[i]] + Seq::<Entry>::empty()));
            },
            None => {
                assert(pull_members(seq, Seq::<Seq<char>>::empty()) == (seq, Seq::<Entry>::empty()));
                assert(pull_members(seq, moved.take(1)) == pull_members(seq, moved.take(1).drop_first()));
            },
        }
    } else {
        let tail = moved.drop_first();
        assert(moved.take(k).drop_first() =~= tail.take(k - 1));
        assert(moved.take(k + 1).drop_first() =~= tail.take(k));
        assert(moved.take(k)[0] == moved[0]);
        assert(moved.take(k + 1)[0] == moved[0]);
        assert(tail[k - 1] == moved[k]);
        match entry_pos(seq, moved[0]) {
            Some(i) => {
                lemma_pull_step(seq.remove(i), tail, k - 1);
                let (a0, b0) = pull_members(seq.remove(i), tail.take(k - 1));
                let (a1, b1) = pull_members(seq.remove(i), tail.take(k));
                assert(pull_members(seq, moved.take(k)) == (a0, seq![seq[i]] + b0));
                assert(pull_members(seq, moved.take(k + 1)) == (a1, seq![seq[i]] + b1));
                match entry_pos(a0, moved[k]) {
                    Some(j) => {
                        assert(seq![seq[i]] + b1 =~= (seq![seq[i]] + b0).push(a0[j]));
                    },
                    None => {},
                }
            },
            None => {
                lemma_pull_step(seq, tail, k - 1);
                assert(pull_members(seq, moved.take(k)) == pull_members(seq, tail.take(k - 1)));
                assert(pull_members(seq, moved.take(k + 1)) == pull_members(seq, tail.take(k)));
            },
        }
    }
}

/// Rewrites the content order for a group landing at `pos` (see
/// `group_order`).
pub fn insert_group(seq: Vec<Entry>, moved: &Vec<String>, pos: usize) -> (r: Vec<Entry>)
    ensures
        r@ == group_order(seq@, strs(moved@), pos as int),
{
    let ghost names = strs(moved@);
    let ghost seq0 = seq@;
    let mut rest = seq;
    let mut members: Vec<Entry> = Vec::new();
    let mut k: usize = 0;
    assert(names.take(0) =~= Seq::<Seq<char>>::empty());
    while k < moved.len()
        invariant
            k <= moved@.len(),
            names == strs(moved@),
            pull_members(seq0, names.take(k as int)) == (rest@, members@),
        decreases moved.len() - k,
    {
        proof {
            lemma_pull_step(seq0, names, k as int);
        }
        assert(names[k as int] == moved@[k as int]@);
        match entry_pos_exec(&rest, &moved[k]) {
            Some(i) => {
                let item = rest.remove(i);
                members.push(item);
            },
            None => {},
        }
        k += 1;
    }
    assert(names.take(moved@.len() as int) =~= names);
    let at = if pos < rest.len() { pos } else { rest.len() };
    let mut out: Vec<Entry> = Vec::new();
    let mut i: usize = 0;
    while i < at
        invariant
            at <= rest@.len(),
            i <= at,
            out@ == rest@.take(i as int),
        decreases at - i,
    {
        out.push(rest[i].copy());
        i += 1;
        assert(out@ =~= rest@.take(i as int));
    }
    let mut j: usize = 0;
    while j < members.len()
        invariant
            j <= members@.len(),
            out@ == rest@.take(at as int) + members@.take(j as int),
        decreases members.len() - j,
    {
        out.push(members[j].copy());
        j += 1;
        assert(out@ =~= rest@.take(at as int) + members@.take(j as int));
    }
    assert(members@.take(members@.len() as int) =~= members@);
    let mut t = at;
    while t < rest.len()
        invariant
            at <= t <= rest@.len(),
            out@ == rest@.take(at as int) + members@ + rest@.subrange(at as int, t as int),
        decreases rest.len() - t,
    {
        out.push(rest[t].copy());
        t += 1;
        assert(out@ =~= rest@.take(at as int) + members@ + rest@.subrange(at as int, t as int));
    }
    assert(rest@.subrange(at as int, rest@.len() as int) =~= rest@.skip(at as int));
    out
}

/// The target's content order after one entry lands at `pos` (`None` = at
/// the end; clamped to the end).
pub open spec fn single_order(seq: Seq<Entry>, item: Entry, pos: Option<int>) -> Seq<Entry> {
    let at = match pos {
        Some(p) => if p < seq.len() { p } else { seq.len() as int },
        None => seq.len() as int,
    };
    seq.insert(at, item)
}

/// Inserts a moved entry into the content order.
pub fn insert_single(seq: Vec<Entry>, item: Entry, pos: Option<usize>) -> (r: Vec<Entry>)
    ensures
        r@ == single_order(seq@, item, match pos { Some(p) => Some(p as int), None => None }),
{
    let mut seq = seq;
    let at = match pos {
        Some(p) => if p < seq.len() { p } else { seq.len() },
        None => seq.len(),
    };
    seq.insert(at, item);
    seq
}

/// Status text of a group move between branches.
pub open spec fn group_move_message(
    src_title: Seq<char>,
    dst_title: Seq<char>,
    first_path: Seq<char>,
    moved: Seq<Seq<char>>,
    errs: Seq<Seq<char>>,
) -> Result<Seq<char>, Seq<char>> {
    if moved.len() == 0 {
        Err(if errs.len() > 0 { errs[0] } else { "无条目被移动"@ })
    } else if moved.len() == 1 && errs.len() == 0 {
        Ok("已从「"@ + src_title + "」移动「"@ + first_path + "」→「"@ + dst_title + "」。"@)
    } else {
        let note = if errs.len() == 0 {
            Seq::<char>::empty()
        } else {
            "（"@ + dec(errs.len()) + " 项失败："@ + join(errs, "；"@) + "）"@
        };
        Ok("已从「"@ + src_title + "」移动 "@ + dec(moved.len()) + " 项 →「"@ + dst_title + "」："@ + name_list_of(moved) + note)
    }
}

/// Reports a group move: the first failure when nothing moved; the source,
/// item and target for a single clean move; otherwise the count, the names
/// (at most three) and the failures.
pub fn move_summary(
    src_title: &str,
    dst_title: &str,
    first_path: &str,
    moved: &Vec<String>,
    errs: &Vec<String>,
) -> (r: Result<String, String>)
    ensures
        match r {
            Ok(s) => group_move_message(src_title@, dst_title@, first_path@, strs(moved@), strs(errs@)) == Ok::<Seq<char>, Seq<char>>(s@),
            Err(s) => group_move_message(src_title@, dst_title@, first_path@, strs(moved@), strs(errs@)) == Err::<Seq<char>, Seq<char>>(s@),
        },
{
    if moved.len() == 0 {
        if errs.len() > 0 {
            return Err(errs[0].clone());
        }
        return Err("无条目被移动".to_owned());
    }
    let s = chars_of(src_title);
    let d = chars_of(dst_title);
    if moved.len() == 1 && errs.len() == 0 {
        let p = chars_of(first_path);
        let out = concat(&concat(&concat(&concat(&concat(&concat(&chars_of("已从「"), &s), &chars_of("」移动「")), &p), &chars_of("」→「")), &d), &chars_of("」。"));
        return Ok(string_of(&out));
    }
    let note: Vec<char> = if errs.len() == 0 {
        Vec::new()
    } else {
        let parts = crate::text::to_char_vecs(errs);
        let sep = chars_of("；");
        let joined = join_exec(&parts, &sep);
        concat(&concat(&concat(&concat(&chars_of("（"), &dec_exec(errs.len() as u128)), &chars_of(" 项失败：")), &joined), &chars_of("）"))
    };
    assert(note@ == if errs@.len() == 0 { Seq::<char>::empty() } else {
        "（"@ + dec(strs(errs@).len()) + " 项失败："@ + join(strs(errs@), "；"@) + "）"@
    });
    let names = name_list(moved.as_slice());
    let n = chars_of(names.as_str());
    let out = concat(&concat(&concat(&concat(&concat(&concat(&concat(&chars_of("已从「"), &s), &chars_of("」移动 ")), &dec_exec(moved.len() as u128)), &chars_of(" 项 →「")), &d), &chars_of("」：")), &concat(&n, &note));
    assert(out@ =~= "已从「"@ + s@ + "」移动 "@ + dec(strs(moved@).len()) + " 项 →「"@ + d@ + "」："@ + name_list_of(strs(moved@)) + note@);
    Ok(string_of(&out))
}

// ───────────────────────── moving a group between branches ─────────────────────────

/// Why a group move between branches `src` and `dst` is refused up front.
pub open spec fn group_move_refusal(e: Editor, src: int, dst: int) -> Option<Seq<char>> {
    match e.scan {
        None => Some("未打开 bundle"@),
        Some(s) => if src == dst {
            Some("源与目标是同一分支"@)
        } else if src >= s.visits.len() || dst >= s.visits.len() {
            Some("分支无效"@)
        } else {
            None
        },
    }
}

/// The first refusal of a group move, if any.
pub fn group_move_precheck(e: &Editor, src: usize, dst: usize) -> (r: Option<String>)
    ensures
        opt_view(r) == group_move_refusal(*e, src as int, dst as int),
{
    match &e.scan {
        None => Some("未打开 bundle".to_owned()),
        Some(s) => if src == dst {
            Some("源与目标是同一分支".to_owned())
        } else if src >= s.visits.len() || dst >= s.visits.len() {
            Some("分支无效".to_owned())
        } else {
            None
        },
    }
}

/// What happens to one item of a moved group.
pub enum ItemPlan {
    /// Not moved; the failure note.
    Refuse(String),
    /// A folder already in the destination directory: nothing to do.
    Skip,
    /// Moved into the destination directory under this name.
    Move(String),
}

/// Decides one item `path` of a group moved to directory `dst_dir`.
/// `reg_role`: the role of its registration in the source branch (`None`
/// for a folder child); `src_fs`: its path on disk; `existing`: the names
/// taken at the destination so far; `fs_names`: what the destination
/// directory holds on disk. Branch registrations never move as content; a
/// registered folder cannot enter itself and stays when it is already
/// there; a registered item keeps its path as name, a folder child its file
/// name, each made free Finder-style (a folder child also avoids the names
/// on disk); a vanished folder child is refused.
pub fn group_item_plan(
    path: &String,
    reg_role: &Option<String>,
    src_exists: bool,
    src_is_dir: bool,
    src_fs: &Vec<String>,
    dst_dir: &Vec<String>,
    existing: &Vec<String>,
    fs_names: &Vec<String>,
) -> (r: ItemPlan)
    ensures
        match opt_view(*reg_role) {
            Some(role) => if is_branch_role(role) {
                r matches ItemPlan::Refuse(m) && m@ == path@ + "：分支条目不能作为内容移动"@
            } else if src_is_dir && dir_prefix(comp_views(src_fs@), comp_views(dst_dir@)) {
                r matches ItemPlan::Refuse(m) && m@ == path@ + "：不能把文件夹移入其自身内部"@
            } else if src_is_dir && src_fs@.len() > 0 && comp_views(src_fs@).drop_last() == comp_views(dst_dir@) {
                r is Skip
            } else {
                r matches ItemPlan::Move(n) && exists|k: nat| #[trigger] copy_candidate(path@, k) == n@
                    && first_free_copy(existing@, path@, k)
            },
            None => if !src_exists {
                r matches ItemPlan::Refuse(m) && m@ == path@ + "：源文件不存在"@
            } else {
                r matches ItemPlan::Move(n) && exists|k: nat| #[trigger] copy_candidate(after_last(path@, '/'), k) == n@
                    && first_free_copy(existing@ + fs_names@, after_last(path@, '/'), k)
            },
        },
{
    let p = chars_of(path.as_str());
    match reg_role {
        Some(role) => {
            if is_branch_role_exec(role) {
                return ItemPlan::Refuse(string_of(&concat(&p, &chars_of("：分支条目不能作为内容移动"))));
            }
            if src_is_dir {
                if dir_prefix_exec(src_fs, dst_dir) {
                    return ItemPlan::Refuse(string_of(&concat(&p, &chars_of("：不能把文件夹移入其自身内部"))));
                }
                if src_fs.len() > 0 && src_fs.len() - 1 == dst_dir.len() && dir_prefix_exec(dst_dir, src_fs) {
                    assert(comp_views(src_fs@).drop_last() =~= comp_views(src_fs@).take(dst_dir@.len() as int));
                    return ItemPlan::Skip;
                }
                proof {
                    if src_fs@.len() > 0 && comp_views(src_fs@).drop_last() == comp_views(dst_dir@) {
                        assert(comp_views(src_fs@).take(dst_dir@.len() as int) =~= comp_views(src_fs@).drop_last());
                    }
                }
            }
            ItemPlan::Move(dedup_name(existing.as_slice(), path.as_str()))
        },
        None => {
            if !src_exists {
                return ItemPlan::Refuse(string_of(&concat(&p, &chars_of("：源文件不存在"))));
            }
            let mut merged: Vec<String> = Vec::new();
            let mut i: usize = 0;
            while i < existing.len()
                invariant
                    i <= existing@.len(),
                    merged@ == existing@.take(i as int),
                decreases existing.len() - i,
            {
                merged.push(existing[i].clone());
                i += 1;
                assert(merged@ =~= existing@.take(i as int));
            }
            let mut j: usize = 0;
            while j < fs_names.len()
                invariant
                    j <= fs_names@.len(),
                    merged@ == existing@ + fs_names@.take(j as int),
                decreases fs_names.len() - j,
            {
                merged.push(fs_names[j].clone());
                j += 1;
                assert(merged@ =~= existing@ + fs_names@.take(j as int));
            }
            assert(existing@.take(existing@.len() as int) =~= existing@);
            assert(fs_names@.take(fs_names@.len() as int) =~= fs_names@);
            let name = basename(path.as_str());
            ItemPlan::Move(dedup_name(merged.as_slice(), name.as_str()))
        },
    }
}

/// The branch-relative paths of moved items named `moved`, landed in the
/// destination folder (`None` = the branch directory `dst_root`).
pub open spec fn landed_paths(dst_root: Seq<Seq<char>>, folder: Option<Seq<Seq<char>>>, moved: Seq<Seq<char>>) -> Seq<Seq<char>> {
    Seq::new(moved.len(), |i: int| match folder {
        Some(f) => child_path_of(dst_root, f, moved[i]),
        None => moved[i],
    })
}

/// A destination folder as components.
pub open spec fn folder_view(folder: Option<Vec<String>>) -> Option<Seq<Seq<char>>> {
    match folder {
        Some(f) => Some(comp_views(f@)),
        None => None,
    }
}

/// After a group landed: the landed items become the selection (the first
/// one primary, no range anchor); nothing changes when nothing moved.
pub fn select_landed(e: &mut Editor, dst_root: &Vec<String>, folder: &Option<Vec<String>>, moved: &Vec<String>)
    requires
        old(e).wf(),
    ensures
        final(e).wf(),
        same_tree(*final(e), *old(e)),
        ({
            let ps = landed_paths(comp_views(dst_root@), folder_view(*folder), strs(moved@));
            if moved@.len() == 0 {
                *final(e) == *old(e)
            } else {
                &&& final(e).entry_multi@ == ps.to_set()
                &&& final(e).entry_anchor is None
                &&& opt_view(final(e).selected_entry_path) == Some(ps[0])
            }
        }),
{
    if moved.len() == 0 {
        return;
    }
    let ghost fv = folder_view(*folder);
    let ghost ps = landed_paths(comp_views(dst_root@), fv, strs(moved@));
    e.entry_multi.clear();
    let mut first: Option<String> = None;
    let mut i: usize = 0;
    while i < moved.len()
        invariant
            e.wf(),
            i <= moved@.len(),
            moved@.len() > 0,
            fv == folder_view(*folder),
            ps == landed_paths(comp_views(dst_root@), fv, strs(moved@)),
            e.entry_multi@ == ps.take(i as int).to_set(),
            same_tree(*e, *old(e)),
            e.selected_entry_path == old(e).selected_entry_path,
            e.entry_anchor == old(e).entry_anchor,
            i > 0 ==> opt_view(first) == Some(ps[0]),
        decreases moved.len() - i,
    {
        let p = match folder {
            Some(f) => in_dir_child_path(dst_root, f, moved[i].as_str()),
            None => moved[i].clone(),
        };
        assert(p@ == ps[i as int]);
        e.entry_multi.insert(&p);
        if i == 0 {
            first = Some(p);
        }
        assert(ps.take(i + 1) =~= ps.take(i as int).push(ps[i as int]));
        assert(ps.take(i + 1).to_set() =~= ps.take(i as int).to_set().insert(ps[i as int])) by {
            ps.take(i as int).lemma_push_to_set_commute(ps[i as int]);
        }
        i += 1;
    }
    assert(ps.take(moved@.len() as int) =~= ps);
    e.entry_anchor = None;
    e.selected_entry_path = first;
}

// ───────────────────────── moving one entry between branches ─────────────────────────

/// Why moving one entry from branch `src` to branch `dst` is refused up front.
pub open spec fn entry_move_refusal(e: Editor, src: int, dst: int) -> Option<Seq<char>> {
    match e.scan {
        None => Some("未打开 bundle"@),
        Some(s) => if src >= s.visits.len() || dst >= s.visits.len() {
            Some("源或目标分支无效"@)
        } else {
            None
        },
    }
}

/// The first refusal of a single-entry move, if any.
pub fn entry_move_precheck(e: &Editor, src: usize, dst: usize) -> (r: Option<String>)
    ensures
        opt_view(r) == entry_move_refusal(*e, src as int, dst as int),
{
    match &e.scan {
        None => Some("未打开 bundle".to_owned()),
        Some(s) => if src >= s.visits.len() || dst >= s.visits.len() {
            Some("源或目标分支无效".to_owned())
        } else {
            None
        },
    }
}

/// Decides a single-entry move of `path` from branch `src` to branch `dst`
/// before anything is touched: the up-front refusal, then a missing source
/// (`src_exists`) is refused; otherwise the name it lands under, its file
/// name made free Finder-style among the destination's names `existing`.
/// On a refusal the caller moves no file and writes no `._meta`.
pub fn entry_move_plan(
    e: &Editor,
    src: usize,
    dst: usize,
    path: &String,
    src_exists: bool,
    existing: &Vec<String>,
) -> (r: Result<String, String>)
    ensures
        match entry_move_refusal(*e, src as int, dst as int) {
            Some(m) => r matches Err(x) && x@ == m,
            None => if !src_exists {
                r matches Err(x) && x@ == "源文件不存在"@
            } else {
                r matches Ok(n) && exists|k: nat| #[trigger] copy_candidate(after_last(path@, '/'), k) == n@
                    && first_free_copy(existing@, after_last(path@, '/'), k)
            },
        },
{
    match entry_move_precheck(e, src, dst) {
        Some(m) => Err(m),
        None => {
            if !src_exists {
                return Err("源文件不存在".to_owned());
            }
            let base = basename(path.as_str());
            Ok(dedup_name(existing.as_slice(), base.as_str()))
        },
    }
}

/// The entry highlighted after a single move landed as `name`: inside the
/// destination folder (a registered entry moved into a folder of the
/// destination branch at `dst_dir`) its branch-relative path, else `name`.
pub open spec fn moved_highlight(registered: bool, dst_dir: Seq<Seq<char>>, folder: Option<Seq<Seq<char>>>, name: Seq<char>) -> Seq<char> {
    match folder {
        Some(f) => if registered && dir_prefix(dst_dir, f) {
            join(f.skip(dst_dir.len() as int), "/"@) + "/"@ + name
        } else {
            name
        },
        None => name,
    }
}

/// Computes the highlighted entry after a single move (see `moved_highlight`).
pub fn moved_entry_highlight(registered: bool, dst_dir: &Vec<String>, folder: &Option<Vec<String>>, name: &str) -> (r: String)
    ensures
        r@ == moved_highlight(registered, comp_views(dst_dir@), folder_view(*folder), name@),
{
    match folder {
        Some(f) => {
            if registered && dir_prefix_exec(dst_dir, f) {
                let mut rest: Vec<String> = Vec::new();
                let mut i = dst_dir.len();
                while i < f.len()
                    invariant
                        dst_dir.len() <= i <= f.len(),
                        strs(rest@) == comp_views(f@).subrange(dst_dir.len() as int, i as int),
                    decreases f.len() - i,
                {
                    let ghost before = strs(rest@);
                    rest.push(f[i].clone());
                    assert(strs(rest@) =~= before.push(comp_views(f@)[i as int]));
                    i += 1;
                    assert(strs(rest@) =~= comp_views(f@).subrange(dst_dir.len() as int, i as int));
                }
                assert(comp_views(f@).skip(dst_dir.len() as int) =~= comp_views(f@).subrange(dst_dir.len() as int, f.len() as int));
                let parts = crate::text::to_char_vecs(rest.as_slice());
                let slash = chars_of("/");
                let joined = join_exec(&parts, slash.as_slice());
                string_of(&concat(&concat(&joined, &slash), &chars_of(name)))
            } else {
                name.to_owned()
            }
        },
        None => name.to_owned(),
    }
}

proof fn lemma_sub_left(a: Seq<char>, b: Seq<char>, x: Seq<char>)
    requires
        contains_sub(a, x),
    ensures
        contains_sub(a + b, x),
{
    let i = choose|i: int| matches_at(a, x, i);
    assert((a + b).subrange(i, i + x.len()) =~= a.subrange(i, i + x.len()));
    assert(matches_at(a + b, x, i));
}

proof fn lemma_sub_right(a: Seq<char>, b: Seq<char>, x: Seq<char>)
    requires
        contains_sub(b, x),
    ensures
        contains_sub(a + b, x),
{
    let i = choose|i: int| matches_at(b, x, i);
    assert((a + b).subrange(a.len() + i, a.len() + i + x.len()) =~= b.subrange(i, i + x.len()));
    assert(matches_at(a + b, x, a.len() + i));
}

proof fn lemma_sub_self(x: Seq<char>)
    ensures
        contains_sub(x, x),
{
    assert(x.subrange(0, x.len() as int) =~= x);
    assert(matches_at(x, x, 0));
}

/// Every part of a joined list occurs in it.
proof fn lemma_join_has_part(parts: Seq<Seq<char>>, sep: Seq<char>, i: int)
    requires
        0 <= i < parts.len(),
    ensures
        contains_sub(join(parts, sep), parts[i]),
    decreases parts.len(),
{
    lemma_sub_self(parts[i]);
    if parts.len() > 1 {
        let init = parts.drop_last();
        if i == parts.len() - 1 {
            lemma_sub_right(join(init, sep) + sep, parts.last(), parts[i]);
        } else {
            lemma_join_has_part(init, sep, i);
            assert(init[i] == parts[i]);
            lemma_sub_left(join(init, sep), sep, parts[i]);
            lemma_sub_left(join(init, sep) + sep, parts.last(), parts[i]);
        }
    }
}

/// A group move that moved something and had failures reports them: the
/// summary names how many items failed and carries every failure note;
/// nothing moved at all is refused with the first note.
pub proof fn law_group_failures_reported(
    src_title: Seq<char>,
    dst_title: Seq<char>,
    first_path: Seq<char>,
    moved: Seq<Seq<char>>,
    errs: Seq<Seq<char>>,
)
    requires
        errs.len() > 0,
    ensures
        moved.len() > 0 ==> (group_move_message(src_title, dst_title, first_path, moved, errs) matches Ok(m)
            && contains_sub(m, dec(errs.len()) + " 项失败："@)
            && forall|i: int| 0 <= i < errs.len() ==> contains_sub(m, #[trigger] errs[i])),
        moved.len() == 0 ==> group_move_message(src_title, dst_title, first_path, moved, errs) == Err::<Seq<char>, Seq<char>>(errs[0]),
{
    if moved.len() > 0 {
        let head = "已从「"@ + src_title + "」移动 "@ + dec(moved.len()) + " 项 →「"@ + dst_title + "」："@ + name_list_of(moved);
        let open = "（"@ + dec(errs.len());
        let count = open + " 项失败："@;
        let j = join(errs, "；"@);
        let note = count + j + "）"@;
        let m = head + note;
        assert(group_move_message(src_title, dst_title, first_path, moved, errs) == Ok::<Seq<char>, Seq<char>>(m));
        let c = dec(errs.len()) + " 项失败："@;
        let at: int = "（"@.len() as int;
        assert(count.subrange(at, at + c.len()) =~= c);
        assert(matches_at(count, c, at));
        lemma_sub_left(count, j, c);
        lemma_sub_left(count + j, "）"@, c);
        lemma_sub_right(head, note, c);
        assert forall|i: int| 0 <= i < errs.len() implies contains_sub(m, #[trigger] errs[i]) by {
            lemma_join_has_part(errs, "；"@, i);
            lemma_sub_right(count, j, errs[i]);
            lemma_sub_left(count + j, "）"@, errs[i]);
            lemma_sub_right(head, note, errs[i]);
        }
    }
}

} // verus!
