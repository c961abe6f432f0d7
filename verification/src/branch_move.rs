//! Dragging branches in the structure tree: where a drop lands, whether it
//! changes anything, and the registrations it rewrites.
use vstd::prelude::*;
use crate::editor::Editor;
use crate::model::{dir_name, entry_is_branch, is_ancestor, scan_wf, Entry, Meta, Scan};

verus! {

/// What a branch drop does.
pub enum BranchMoveOp {
    /// Same parent: rewrite the parent's branch order to `seq`.
    Reorder { parent_dir: Vec<String>, seq: Vec<Entry> },
    /// Different parent: move the directory, unregister it under the old
    /// parent and register `entry` at position `pos` of the new parent's
    /// branch order.
    Move {
        src_dir: Vec<String>,
        src_parent_dir: Vec<String>,
        new_parent_dir: Vec<String>,
        name: String,
        entry: Entry,
        pos: usize,
    },
}

/// The branch registrations among `es`, in order.
pub open spec fn branch_entries(es: Seq<Entry>) -> Seq<Entry>
    decreases es.len(),
{
    if es.len() == 0 {
        Seq::<Entry>::empty()
    } else {
        let r = branch_entries(es.drop_last());
        if entry_is_branch(es.last()) {
            r.push(es.last())
        } else {
            r
        }
    }
}

/// Index of the first entry registered under `name`.
pub open spec fn entry_pos(es: Seq<Entry>, name: Seq<char>) -> Option<int> {
    if exists|j: int| 0 <= j < es.len() && es[j].path@ == name {
        Some(choose|j: int| 0 <= j < es.len() && es[j].path@ == name && forall|k: int| 0 <= k < j ==> es[k].path@ != name)
    } else {
        None
    }
}

/// Insertion index for a drop next to `target`: before it, or after it.
pub open spec fn drop_pos(es: Seq<Entry>, target: Seq<char>, after: bool) -> Option<int> {
    match entry_pos(es, target) {
        Some(t) => Some(if t + (if after { 1int } else { 0int }) < es.len() { t + (if after { 1int } else { 0int }) } else { es.len() as int }),
        None => None,
    }
}

/// The role a branch is registered with under a parent of depth `d`.
pub open spec fn role_under(d: nat) -> Seq<char> {
    if d == 0 { "node"@ } else { "branch"@ }
}

/// What a drop of branch `src` next to `target` (before it, or after it
/// when `after`) decides, given the target parent's `._meta` (`pm`) and the
/// moved branch's own `._meta` (`sm`) as read from disk.
pub enum PlanOutcome {
    Fail(Seq<char>),
    /// The order would not change.
    Noop,
    /// Same parent: the new branch order.
    Reorder(Seq<Entry>),
    /// Different parent: the insert position and the new role.
    Move(int, Seq<char>),
}

pub open spec fn err_text(r: Result<Meta, String>) -> Seq<char> {
    match r {
        Err(e) => e@,
        Ok(_) => Seq::<char>::empty(),
    }
}

pub open spec fn plan_outcome(
    s: Option<Scan>,
    src: int,
    target: int,
    after: bool,
    pm: Result<Meta, String>,
    sm: Result<Meta, String>,
) -> PlanOutcome {
    match s {
        None => PlanOutcome::Fail("未打开 bundle"@),
        Some(s) => {
            let n = s.visits.len();
            if !(0 <= src < n) || !(0 <= target < n) {
                PlanOutcome::Fail("分支无效"@)
            } else if src == target {
                PlanOutcome::Noop
            } else if s.visits[target].parent is None {
                PlanOutcome::Fail("ROOT 不能作为排序目标"@)
            } else if dir_name(s.visits[src]) is None || dir_name(s.visits[target]) is None {
                PlanOutcome::Fail("无法取得分支 id"@)
            } else if s.visits[src].parent is None {
                PlanOutcome::Fail("ROOT 不可拖动"@)
            } else if pm is Err {
                PlanOutcome::Fail(err_text(pm))
            } else {
                let tp = s.visits[target].parent.unwrap() as int;
                let sp = s.visits[src].parent.unwrap() as int;
                let src_name = dir_name(s.visits[src]).unwrap();
                let tgt_name = dir_name(s.visits[target]).unwrap();
                let seq = branch_entries(pm.unwrap().entries@);
                if sp == tp {
                    match entry_pos(seq, src_name) {
                        None => PlanOutcome::Fail("未找到源分支条目"@),
                        Some(sq) => {
                            let rest = seq.remove(sq);
                            match drop_pos(rest, tgt_name, after) {
                                None => PlanOutcome::Fail("未找到目标分支条目"@),
                                Some(t) => if t == sq {
                                    PlanOutcome::Noop
                                } else {
                                    PlanOutcome::Reorder(rest.insert(t, seq[sq]))
                                },
                            }
                        },
                    }
                } else if tp == src || is_ancestor(s, src, tp) {
                    PlanOutcome::Fail("不能把分支移入其自身子树"@)
                } else {
                    match drop_pos(seq, tgt_name, after) {
                        None => PlanOutcome::Fail("未找到目标分支条目"@),
                        Some(t) => if sm is Err {
                            PlanOutcome::Fail(err_text(sm))
                        } else {
                            PlanOutcome::Move(t, role_under(s.visits[tp].depth as nat))
                        },
                    }
                }
            }
        },
    }
}

/// Copies of the branch registrations of `es`.
pub fn branch_entries_exec(es: &Vec<Entry>) -> (r: Vec<Entry>)
    ensures
        r@ == branch_entries(es@),
{
    let mut out: Vec<Entry> = Vec::new();
    let mut i: usize = 0;
    while i < es.len()
        invariant
            i <= es.len(),
            out@ == branch_entries(es@.take(i as int)),
        decreases es.len() - i,
    {
        assert(es@.take(i + 1).drop_last() == es@.take(i as int));
        if es[i].is_branch() {
            out.push(es[i].copy());
        }
        i += 1;
    }
    assert(es@.take(es.len() as int) == es@);
    out
}

/// Index of the first entry registered under `name`.
pub fn entry_pos_exec(es: &Vec<Entry>, name: &String) -> (r: Option<usize>)
    ensures
        match r {
            Some(j) => entry_pos(es@, name@) == Some(j as int) && j < es@.len(),
            None => entry_pos(es@, name@) is None,
        },
{
    let mut j: usize = 0;
    while j < es.len()
        invariant
            j <= es.len(),
            forall|k: int| 0 <= k < j ==> es@[k].path@ != name@,
        decreases es.len() - j,
    {
        if es[j].path == *name {
            let ghost w = choose|w: int| 0 <= w < es@.len() && es@[w].path@ == name@ && forall|k: int| 0 <= k < w ==> es@[k].path@ != name@;
            assert(w == j) by {
                if w > j {
                    assert(es@[j as int].path@ == name@);
                }
            }
            return Some(j);
        }
        j += 1;
    }
    None
}

fn drop_pos_exec(es: &Vec<Entry>, target: &String, after: bool) -> (r: Option<usize>)
    ensures
        match r {
            Some(t) => drop_pos(es@, target@, after) == Some(t as int),
            None => drop_pos(es@, target@, after) is None,
        },
{
    match entry_pos_exec(es, target) {
        Some(t) => {
            let len = es.len();
            assert(t < len);
            let bumped = if after { t + 1 } else { t };
            Some(if bumped < len { bumped } else { len })
        },
        None => None,
    }
}

fn last_component(dir: &Vec<String>) -> (r: Option<String>)
    ensures
        match r {
            Some(n) => dir@.len() > 0 && n@ == dir@.last()@,
            None => dir@.len() == 0,
        },
{
    if dir.len() > 0 {
        Some(dir[dir.len() - 1].clone())
    } else {
        None
    }
}

fn copy_dir(d: &Vec<String>) -> (r: Vec<String>)
    ensures
        r@ == d@,
{
    let mut out: Vec<String> = Vec::new();
    let mut i: usize = 0;
    while i < d.len()
        invariant
            i <= d.len(),
            out@ == d@.take(i as int),
        decreases d.len() - i,
    {
        out.push(d[i].clone());
        i += 1;
        assert(out@ =~= d@.take(i as int));
    }
    assert(d@.take(d.len() as int) =~= d@);
    out
}

fn copy_err(r: &Result<Meta, String>) -> (e: String)
    requires
        r is Err,
    ensures
        e@ == err_text(*r),
{
    match r {
        Err(e) => e.clone(),
        Ok(_) => String::new(),
    }
}

/// Whether `a` is a proper ancestor of `c` (walking parent links).
pub fn ancestor_of(s: &Scan, a: usize, c: usize) -> (r: bool)
    requires
        scan_wf(*s),
        c < s.visits.len(),
    ensures
        r == is_ancestor(*s, a as int, c as int),
    decreases c,
{
    match s.visits[c].parent {
        Some(p) => if p == a { true } else { ancestor_of(s, a, p) },
        None => false,
    }
}

/// Plans dropping branch `src` next to `target` in the structure tree
/// (`after` = below it). A drop onto itself keeps the order (`Ok(None)`).
/// The target level is the target's parent: the same parent reorders its branch order (`Ok(None)` when the order would not
/// change); another parent moves the branch there, unless that parent lies
/// in the moved subtree. `parent_meta` is the target parent's `._meta` and
/// `src_meta` the moved branch's own, as read from disk.
pub fn branch_move_plan(
    e: &Editor,
    src: usize,
    target: usize,
    after: bool,
    parent_meta: &Result<Meta, String>,
    src_meta: &Result<Meta, String>,
) -> (r: Result<Option<BranchMoveOp>, String>)
    requires
        e.wf(),
    ensures
        match plan_outcome(e.scan, src as int, target as int, after, *parent_meta, *src_meta) {
            PlanOutcome::Fail(msg) => r matches Err(m) && m@ == msg,
            PlanOutcome::Noop => r matches Ok(None),
            PlanOutcome::Reorder(seq) => r matches Ok(Some(BranchMoveOp::Reorder { parent_dir, seq: got }))
                && got@ == seq
                && parent_dir@ == e.scan.unwrap().visits[e.scan.unwrap().visits[target as int].parent.unwrap() as int].dir@,
            PlanOutcome::Move(pos, role) => {
                let s = e.scan.unwrap();
                let tp = s.visits[target as int].parent.unwrap() as int;
                let sp = s.visits[src as int].parent.unwrap() as int;
                let sm = src_meta.unwrap();
                r matches Ok(Some(BranchMoveOp::Move { src_dir, src_parent_dir, new_parent_dir, name, entry, pos: p }))
                    && p == pos
                    && src_dir@ == s.visits[src as int].dir@
                    && src_parent_dir@ == s.visits[sp].dir@
                    && new_parent_dir@ == s.visits[tp].dir@
                    && Some(name@) == dir_name(s.visits[src as int])
                    && entry.path@ == name@
                    && entry.role@ == role
                    && entry.id == sm.id
                    && entry.branch_type == sm.branch_type
                    && entry.title == sm.title
                    && entry.size is None
                    && entry.count is None
                    && entry.note is None
                    && entry.sha256 is None
                    && entry.order is None
            },
        },
{
    let s = match &e.scan {
        Some(s) => s,
        None => {
            return Err("未打开 bundle".to_owned());
        },
    };
    if src >= s.visits.len() || target >= s.visits.len() {
        return Err("分支无效".to_owned());
    }
    if src == target {
        return Ok(None);
    }
    let tp = match s.visits[target].parent {
        Some(p) => p,
        None => {
            return Err("ROOT 不能作为排序目标".to_owned());
        },
    };
    let src_name = match last_component(&s.visits[src].dir) {
        Some(n) => n,
        None => {
            return Err("无法取得分支 id".to_owned());
        },
    };
    let tgt_name = match last_component(&s.visits[target].dir) {
        Some(n) => n,
        None => {
            return Err("无法取得分支 id".to_owned());
        },
    };
    let sp = match s.visits[src].parent {
        Some(p) => p,
        None => {
            return Err("ROOT 不可拖动".to_owned());
        },
    };
    let pm = match parent_meta {
        Ok(m) => m,
        Err(_) => {
            return Err(copy_err(parent_meta));
        },
    };
    assert(scan_wf(*s));
    let mut seq = branch_entries_exec(&pm.entries);
    if sp == tp {
        let src_pos = match entry_pos_exec(&seq, &src_name) {
            Some(p) => p,
            None => {
                return Err("未找到源分支条目".to_owned());
            },
        };
        let ghost seq0 = seq@;
        let item = seq.remove(src_pos);
        let tpos = match drop_pos_exec(&seq, &tgt_name, after) {
            Some(t) => t,
            None => {
                return Err("未找到目标分支条目".to_owned());
            },
        };
        if tpos == src_pos {
            return Ok(None);
        }
        seq.insert(tpos, item);
        return Ok(Some(BranchMoveOp::Reorder { parent_dir: copy_dir(&s.visits[tp].dir), seq }));
    }
    if tp == src || ancestor_of(s, src, tp) {
        return Err("不能把分支移入其自身子树".to_owned());
    }
    let tpos = match drop_pos_exec(&seq, &tgt_name, after) {
        Some(t) => t,
        None => {
            return Err("未找到目标分支条目".to_owned());
        },
    };
    let sm = match src_meta {
        Ok(m) => m,
        Err(_) => {
            return Err(copy_err(src_meta));
        },
    };
    let role = if s.visits[tp].depth == 0 { "node".to_owned() } else { "branch".to_owned() };
    proof {
        reveal_strlit("node");
        reveal_strlit("branch");
    }
    let entry = Entry {
        path: src_name.clone(),
        role,
        id: crate::model::copy_opt(&sm.id),
        branch_type: crate::model::copy_opt(&sm.branch_type),
        title: crate::model::copy_opt(&sm.title),
        note: None,
        size: None,
        count: None,
        sha256: None,
        order: None,
    };
    Ok(Some(BranchMoveOp::Move {
        src_dir: copy_dir(&s.visits[src].dir),
        src_parent_dir: copy_dir(&s.visits[sp].dir),
        new_parent_dir: copy_dir(&s.visits[tp].dir),
        name: src_name,
        entry,
        pos: tpos,
    }))
}

/// Whether dropping `src` below or above `target` is a real move (the
/// structure tree's insertion indicator): exactly when the plan succeeds
/// with an operation.
pub fn tree_drop_ok(
    e: &Editor,
    src: usize,
    target: usize,
    after: bool,
    parent_meta: &Result<Meta, String>,
    src_meta: &Result<Meta, String>,
) -> (r: bool)
    requires
        e.wf(),
    ensures
        r == (plan_outcome(e.scan, src as int, target as int, after, *parent_meta, *src_meta) is Reorder
            || plan_outcome(e.scan, src as int, target as int, after, *parent_meta, *src_meta) is Move),
{
    match branch_move_plan(e, src, target, after, parent_meta, src_meta) {
        Ok(Some(_)) => true,
        _ => false,
    }
}

/// Whether `src` may be dropped onto `target` to become its child: not
/// onto itself, not into its own subtree, and never the root.
pub open spec fn nest_ok(s: Option<Scan>, src: int, target: int) -> bool {
    match s {
        None => false,
        Some(s) => {
            &&& 0 <= src < s.visits.len()
            &&& 0 <= target < s.visits.len()
            &&& src != target
            &&& s.visits[src].depth != 0
            &&& !is_ancestor(s, src, target)
        },
    }
}

/// Validity of a nesting drop (upper half of a structure-tree row).
pub fn tree_nest_ok(e: &Editor, src: usize, target: usize) -> (r: bool)
    requires
        e.wf(),
    ensures
        r == nest_ok(e.scan, src as int, target as int),
{
    match &e.scan {
        None => false,
        Some(s) => {
            if src >= s.visits.len() || target >= s.visits.len() || src == target {
                return false;
            }
            if s.visits[src].depth == 0 {
                return false;
            }
            !ancestor_of(s, src, target)
        },
    }
}

/// What nesting branch `src` under `target` as its last child decides.
/// Refused: without a bundle; on an invalid pair or onto itself
/// (`分支无效`); for the root (`ROOT 不可拖动`); into its own subtree; without
/// a directory name; when the moved branch's own `._meta` (`src_meta`, read
/// from disk) could not be read. Otherwise the moved directory's name (its
/// id), the parent it leaves, and the registration the target gets: `node`
/// under the root, `branch` below, with the moved branch's id, type and
/// title.
pub fn into_child_plan(e: &Editor, src: usize, target: usize, src_meta: &Result<Meta, String>) -> (r: Result<(String, usize, Entry), String>)
    requires
        e.wf(),
    ensures
        match e.scan {
            None => r matches Err(m) && m@ == "未打开 bundle"@,
            Some(s) => if !(src < s.visits.len()) || !(target < s.visits.len()) || src == target {
                r matches Err(m) && m@ == "分支无效"@
            } else if s.visits[src as int].depth == 0 {
                r matches Err(m) && m@ == "ROOT 不可拖动"@
            } else if is_ancestor(s, src as int, target as int) {
                r matches Err(m) && m@ == "不能把分支移入其自身内部"@
            } else if s.visits[src as int].parent is None {
                r matches Err(m) && m@ == "ROOT 不可拖动"@
            } else if dir_name(s.visits[src as int]) is None {
                r matches Err(m) && m@ == "无法取得分支 id"@
            } else if src_meta is Err {
                r matches Err(m) && m@ == err_text(*src_meta)
            } else {
                let sm = src_meta.unwrap();
                r matches Ok((name, sp, entry)) && Some(name@) == dir_name(s.visits[src as int])
                    && Some(sp) == s.visits[src as int].parent
                    && entry.path@ == name@
                    && entry.role@ == role_under(s.visits[target as int].depth as nat)
                    && entry.id == sm.id
                    && entry.branch_type == sm.branch_type
                    && entry.title == sm.title
                    && entry.size is None
                    && entry.count is None
                    && entry.note is None
                    && entry.sha256 is None
                    && entry.order is None
            },
        },
{
    let s = match &e.scan {
        Some(s) => s,
        None => {
            return Err("未打开 bundle".to_owned());
        },
    };
    if src >= s.visits.len() || target >= s.visits.len() || src == target {
        return Err("分支无效".to_owned());
    }
    if s.visits[src].depth == 0 {
        return Err("ROOT 不可拖动".to_owned());
    }
    if ancestor_of(s, src, target) {
        return Err("不能把分支移入其自身内部".to_owned());
    }
    let sp = match s.visits[src].parent {
        Some(p) => p,
        None => {
            return Err("ROOT 不可拖动".to_owned());
        },
    };
    let name = match last_component(&s.visits[src].dir) {
        Some(n) => n,
        None => {
            return Err("无法取得分支 id".to_owned());
        },
    };
    let sm = match src_meta {
        Ok(m) => m,
        Err(_) => {
            return Err(copy_err(src_meta));
        },
    };
    let role = if s.visits[target].depth == 0 { "node".to_owned() } else { "branch".to_owned() };
    proof {
        reveal_strlit("node");
        reveal_strlit("branch");
    }
    let entry = Entry {
        path: name.clone(),
        role,
        id: crate::model::copy_opt(&sm.id),
        branch_type: crate::model::copy_opt(&sm.branch_type),
        title: crate::model::copy_opt(&sm.title),
        note: None,
        size: None,
        count: None,
        sha256: None,
        order: None,
    };
    Ok((name, sp, entry))
}

/// The `kind` of a branch's own `._meta`.
#[derive(Clone, Copy, PartialEq, Eq, Structural, Debug)]
pub enum BranchKind {
    Root,
    Node,
    Branch,
}

/// The `kind` a moved branch's own `._meta` must be given once its new
/// parent registered it with `role`: `Node` for `node`, else `Branch`;
/// `None` when it has that kind already.
pub fn kind_update(current: Option<BranchKind>, role: &str) -> (r: Option<BranchKind>)
    ensures
        ({
            let want = if role@ == "node"@ { BranchKind::Node } else { BranchKind::Branch };
            r == if current == Some(want) { None } else { Some(want) }
        }),
{
    let is_node = crate::chars::seq_eq(crate::chars::chars_of(role).as_slice(), crate::chars::chars_of("node").as_slice());
    let want = if is_node { BranchKind::Node } else { BranchKind::Branch };
    match current {
        Some(k) => if k == want { None } else { Some(want) },
        None => Some(want),
    }
}

} // verus!
