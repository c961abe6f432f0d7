//! Keeping a branch's `entries[]` in step with the files: removing a
//! registration, adding or replacing one, and the registrations that moves,
//! pastes, renames, imports and the trash leave behind.
use vstd::prelude::*;
use crate::branch_move::{branch_entries, branch_entries_exec, entry_pos, entry_pos_exec};
use crate::groups::{content_entries, content_entries_exec, group_order, insert_group, insert_single, single_order};
use crate::laws::{law_group_order_permutes, lemma_entry_pos_in};
use crate::text::strs;
use crate::clip::ClipItem;
use crate::model::{entry_is_branch, list_contains, str_set, Entry, Meta};

verus! {

/// The branch's own fields, apart from its entries, are the same.
pub open spec fn same_head(a: Meta, b: Meta) -> bool {
    a.id == b.id && a.is_root == b.is_root && a.branch_type == b.branch_type && a.title == b.title
}

/// `es` without the registrations of path `p`.
pub open spec fn without_path(es: Seq<Entry>, p: Seq<char>) -> Seq<Entry>
    decreases es.len(),
{
    if es.len() == 0 {
        es
    } else {
        let r = without_path(es.drop_last(), p);
        if es.last().path@ == p { r } else { r.push(es.last()) }
    }
}

/// `es` without the registrations whose path is in `gone`.
pub open spec fn without_paths(es: Seq<Entry>, gone: Set<Seq<char>>) -> Seq<Entry>
    decreases es.len(),
{
    if es.len() == 0 {
        es
    } else {
        let r = without_paths(es.drop_last(), gone);
        if gone.contains(es.last().path@) { r } else { r.push(es.last()) }
    }
}

/// `es` with `e` registered: it replaces the first registration of its path
/// in place, or is added at the end.
pub open spec fn upsert(es: Seq<Entry>, e: Entry) -> Seq<Entry> {
    match entry_pos(es, e.path@) {
        Some(i) => es.update(i, e),
        None => es.push(e),
    }
}

/// Removes every registration of path `p`.
pub fn remove_entry_path(meta: &mut Meta, p: &String)
    ensures
        final(meta).entries@ == without_path(old(meta).entries@, p@),
        same_head(*final(meta), *old(meta)),
{
    let ghost es = meta.entries@;
    let mut kept: Vec<Entry> = Vec::new();
    let mut i: usize = 0;
    while i < meta.entries.len()
        invariant
            es == meta.entries@,
            i <= es.len(),
            kept@ == without_path(es.take(i as int), p@),
        decreases meta.entries.len() - i,
    {
        assert(es.take(i + 1).drop_last() =~= es.take(i as int));
        if meta.entries[i].path != *p {
            kept.push(meta.entries[i].copy());
        }
        i += 1;
    }
    assert(es.take(es.len() as int) =~= es);
    meta.entries = kept;
}

/// Registers `e`, replacing the registration of its path if there is one.
pub fn upsert_entry(meta: &mut Meta, e: Entry)
    ensures
        final(meta).entries@ == upsert(old(meta).entries@, e),
        same_head(*final(meta), *old(meta)),
{
    match entry_pos_exec(&meta.entries, &e.path) {
        Some(i) => {
            meta.entries.set(i, e);
        },
        None => {
            meta.entries.push(e);
        },
    }
}

/// Unregisters the entries that went to the trash (`trashed`).
pub fn unregister(meta: &mut Meta, trashed: &Vec<String>)
    ensures
        final(meta).entries@ == without_paths(old(meta).entries@, str_set(trashed@)),
        same_head(*final(meta), *old(meta)),
{
    let ghost es = meta.entries@;
    let mut kept: Vec<Entry> = Vec::new();
    let mut i: usize = 0;
    while i < meta.entries.len()
        invariant
            es == meta.entries@,
            i <= es.len(),
            kept@ == without_paths(es.take(i as int), str_set(trashed@)),
        decreases meta.entries.len() - i,
    {
        assert(es.take(i + 1).drop_last() =~= es.take(i as int));
        if !list_contains(trashed, &meta.entries[i].path) {
            kept.push(meta.entries[i].copy());
        }
        i += 1;
    }
    assert(es.take(es.len() as int) =~= es);
    meta.entries = kept;
}

/// An item that landed on disk, as read back: a folder holding `n` items,
/// or a file of `n` bytes with its SHA-256 digest.
pub struct LandedItem {
    pub is_dir: bool,
    pub n: i64,
    pub sha256: Option<String>,
}

/// `e` registers the landed `item` at `path` with `role`, `title` and
/// `note`: a folder with its item count, a file with its size and digest;
/// no id, type or position.
pub open spec fn entry_is(e: Entry, path: Seq<char>, role: Seq<char>, title: Option<String>, note: Option<String>, item: LandedItem) -> bool {
    &&& e.path@ == path
    &&& e.role@ == role
    &&& e.id is None
    &&& e.branch_type is None
    &&& e.title == title
    &&& e.note == note
    &&& e.size == size_if(item.is_dir, item.n)
    &&& e.count == count_if(item.is_dir, item.n)
    &&& e.sha256 == if item.is_dir { None } else { item.sha256 }
    &&& e.order is None
}

/// The role a landed item is registered with: `dir` for a folder.
pub open spec fn landed_role(role: Seq<char>, is_dir: bool) -> Seq<char> {
    if is_dir { "dir"@ } else { role }
}

/// `n` as the landed item's size (a file) or item count (a folder).
pub open spec fn size_if(is_dir: bool, n: i64) -> Option<i64> {
    if is_dir { None } else { Some(n) }
}

pub open spec fn count_if(is_dir: bool, n: i64) -> Option<i64> {
    if is_dir { Some(n) } else { None }
}

/// Registers an item that landed as `name` in the branch: a folder as
/// `dir` with its item count, anything else with `role`, its byte size and
/// digest; `title` and `note` as given. It replaces an earlier registration
/// of that name.
pub fn register_landed(dst: &mut Meta, name: &String, role: &str, title: &Option<String>, note: &Option<String>, item: &LandedItem)
    ensures
        exists|ne: Entry| entry_is(ne, name@, landed_role(role@, item.is_dir), *title, *note, *item)
            && final(dst).entries@ == upsert(old(dst).entries@, ne),
        same_head(*final(dst), *old(dst)),
{
    let is_dir = item.is_dir;
    let n = item.n;
    let ne = Entry {
        path: name.clone(),
        role: if is_dir { "dir".to_owned() } else { role.to_owned() },
        id: None,
        branch_type: None,
        title: crate::model::copy_opt(title),
        note: crate::model::copy_opt(note),
        size: if is_dir { None } else { Some(n) },
        count: if is_dir { Some(n) } else { None },
        sha256: if is_dir { None } else { crate::model::copy_opt(&item.sha256) },
        order: None,
    };
    proof {
        reveal_strlit("dir");
    }
    assert(entry_is(ne, name@, landed_role(role@, is_dir), *title, *note, *item));
    upsert_entry(dst, ne);
}

/// Moves the registration of `from` in branch `src` to branch `dst`, where
/// the item landed as `landed`: it leaves `src`, and `dst` registers it with
/// its role (`dir` and the item count for a folder; otherwise its byte
/// size and digest as read back, `item`), title and note. Returns whether
/// `src` registered `from`; when it did not, nothing changes.
pub fn move_registration(src: &mut Meta, dst: &mut Meta, from: &String, landed: &String, item: &LandedItem) -> (found: bool)
    ensures
        same_head(*final(src), *old(src)),
        same_head(*final(dst), *old(dst)),
        match entry_pos(old(src).entries@, from@) {
            None => !found && *final(src) == *old(src) && *final(dst) == *old(dst),
            Some(i) => {
                let en = old(src).entries@[i];
                &&& found
                &&& final(src).entries@ == without_path(old(src).entries@, from@)
                &&& exists|ne: Entry| entry_is(ne, landed@, landed_role(en.role@, item.is_dir), en.title, en.note, *item)
                    && final(dst).entries@ == upsert(old(dst).entries@, ne)
            },
        },
{
    let i = match entry_pos_exec(&src.entries, from) {
        Some(i) => i,
        None => {
            return false;
        },
    };
    let role = src.entries[i].role.clone();
    let title = crate::model::copy_opt(&src.entries[i].title);
    let note = crate::model::copy_opt(&src.entries[i].note);
    remove_entry_path(src, from);
    register_landed(dst, landed, role.as_str(), &title, &note, item);
    true
}

/// The registration after a paste of `clip` that landed as `landed`: the
/// target branch registers it (role kept; `dir` with its item count, a file
/// with its byte size and digest, `item`); a cut item leaves the registrations of its source
/// branch (`src_is_branch`: its source directory is a branch). Branch items
/// and unknown roles are refused, and nothing changes.
pub fn paste_registration(dst: &mut Meta, src: &mut Meta, clip: &ClipItem, landed: &String, item: &LandedItem, src_is_branch: bool) -> (r: Result<(), String>)
    ensures
        same_head(*final(src), *old(src)),
        same_head(*final(dst), *old(dst)),
        if clip.role@ == "payload"@ || clip.role@ == "asset"@ || clip.role@ == "dir"@ {
            &&& r is Ok
            &&& exists|ne: Entry| entry_is(ne, landed@, clip.role@, None, None, LandedItem { is_dir: clip.role@ == "dir"@, ..*item })
                && final(dst).entries@ == upsert(old(dst).entries@, ne)
            &&& if clip.is_cut && src_is_branch {
                final(src).entries@ == without_path(old(src).entries@, clip.name@)
            } else {
                *final(src) == *old(src)
            }
        } else {
            &&& r matches Err(m) && m@ == "暂不支持 role = "@ + clip.role@ + " 的条目"@
            &&& *final(src) == *old(src)
            &&& *final(dst) == *old(dst)
        },
{
    let content = clip.role == "payload".to_owned() || clip.role == "asset".to_owned() || clip.role == "dir".to_owned();
    proof {
        reveal_strlit("payload");
        reveal_strlit("asset");
        reveal_strlit("dir");
    }
    if !content {
        let msg = crate::chars::concat(&crate::chars::concat(&crate::chars::chars_of("暂不支持 role = "), &crate::chars::chars_of(clip.role.as_str())), &crate::chars::chars_of(" 的条目"));
        return Err(crate::chars::string_of(&msg));
    }
    let is_dir = clip.role == "dir".to_owned();
    let landed_item = LandedItem { is_dir, n: item.n, sha256: crate::model::copy_opt(&item.sha256) };
    register_landed(dst, landed, clip.role.as_str(), &None, &None, &landed_item);
    if clip.is_cut && src_is_branch {
        remove_entry_path(src, &clip.name);
    }
    Ok(())
}

/// `new` is `old` with registration `i` (of path `from`) renamed to `to`:
/// the old path leaves and the entry, all else kept, is registered under
/// the new path.
pub open spec fn registration_renamed(old: Seq<Entry>, new: Seq<Entry>, i: int, from: Seq<char>, to: Seq<char>) -> bool {
    let en = old[i];
    exists|ne: Entry| ne.path@ == to && ne.role == en.role && ne.id == en.id && ne.branch_type == en.branch_type
        && ne.title == en.title && ne.note == en.note && ne.size == en.size && ne.count == en.count
        && ne.sha256 == en.sha256 && ne.order == en.order
        && new == upsert(without_path(old, from), ne)
}

/// A registration renamed from `from` to `to`: the old path leaves, the entry (all
/// else kept) is registered under the new path. Refused, with nothing
/// changed, when `from` is not registered.
pub fn rename_registration(meta: &mut Meta, from: &String, to: &String) -> (r: Result<(), String>)
    ensures
        same_head(*final(meta), *old(meta)),
        match entry_pos(old(meta).entries@, from@) {
            None => r matches Err(m) && m@ == "未找到条目"@ && *final(meta) == *old(meta),
            Some(i) => r is Ok && registration_renamed(old(meta).entries@, final(meta).entries@, i, from@, to@),
        },
{
    let i = match entry_pos_exec(&meta.entries, from) {
        Some(i) => i,
        None => {
            return Err("未找到条目".to_owned());
        },
    };
    let mut ne = meta.entries[i].copy();
    ne.path = to.clone();
    remove_entry_path(meta, from);
    upsert_entry(meta, ne);
    Ok(())
}

/// Keeps a content folder's registration in step with what it holds: the
/// first registration of `rel` gets item count `count` (all else kept);
/// without one nothing changes.
pub fn set_folder_count(meta: &mut Meta, rel: &String, count: i64)
    ensures
        same_head(*final(meta), *old(meta)),
        match entry_pos(old(meta).entries@, rel@) {
            None => *final(meta) == *old(meta),
            Some(i) => {
                let en = old(meta).entries@[i];
                &&& final(meta).entries@.len() == old(meta).entries@.len()
                &&& forall|k: int| 0 <= k < old(meta).entries@.len() && k != i ==> final(meta).entries@[k] == old(meta).entries@[k]
                &&& final(meta).entries@[i] == Entry { count: Some(count), ..en }
            },
        },
{
    match entry_pos_exec(&meta.entries, rel) {
        Some(i) => {
            let mut ne = meta.entries[i].copy();
            ne.count = Some(count);
            meta.entries.set(i, ne);
        },
        None => {},
    }
}

/// Registers a branch pasted into a branch of depth `depth` under its
/// directory name `name`, which is its id (a cut branch keeps its id, a
/// copy has a new one): as `node` under the root, `branch` below, with the
/// type and title of its own `._meta` (`moved`).
pub fn register_moved_branch(dst: &mut Meta, name: &String, depth: usize, moved: &Meta)
    ensures
        same_head(*final(dst), *old(dst)),
        exists|ne: Entry| {
            &&& ne.path@ == name@
            &&& ne.role@ == if depth == 0 { "node"@ } else { "branch"@ }
            &&& ne.id matches Some(x) && x@ == name@
            &&& ne.branch_type == moved.branch_type
            &&& ne.title == moved.title
            &&& ne.size is None
            &&& ne.count is None
            &&& ne.note is None
            &&& ne.sha256 is None
            &&& ne.order is None
            &&& final(dst).entries@ == upsert(old(dst).entries@, ne)
        },
{
    let ne = Entry {
        path: name.clone(),
        role: if depth == 0 { "node".to_owned() } else { "branch".to_owned() },
        id: Some(name.clone()),
        branch_type: crate::model::copy_opt(&moved.branch_type),
        title: crate::model::copy_opt(&moved.title),
        note: None,
        size: None,
        count: None,
        sha256: None,
        order: None,
    };
    proof {
        reveal_strlit("node");
        reveal_strlit("branch");
    }
    upsert_entry(dst, ne);
}

/// What became of one item of a group move on disk.
pub enum Landing {
    /// The file system refused the move.
    MoveFailed,
    /// Moved, but the landed file could not be read back.
    ReadFailed,
    /// Moved; what landed, as read back.
    Landed(LandedItem),
}

/// The running record of a group move into one directory: the names taken
/// there, the names that landed, and the failure notes.
pub struct GroupMove {
    pub existing: Vec<String>,
    pub moved: Vec<String>,
    pub errs: Vec<String>,
}

/// `errs` with one more note.
pub open spec fn noted(old_errs: Seq<String>, new_errs: Seq<String>, note: Seq<char>) -> bool {
    new_errs.len() == old_errs.len() + 1 && new_errs.drop_last() == old_errs && new_errs.last()@ == note
}

/// Adds a failure note.
fn note_err(st: &mut GroupMove, path: &String, what: &str)
    ensures
        noted(old(st).errs@, final(st).errs@, path@ + what@),
        final(st).existing == old(st).existing,
        final(st).moved == old(st).moved,
{
    let msg = crate::chars::concat(&crate::chars::chars_of(path.as_str()), &crate::chars::chars_of(what));
    st.errs.push(crate::chars::string_of(&msg));
    assert(st.errs@.drop_last() =~= old(st).errs@);
}

/// The bookkeeping after one item of a group move, planned to land as
/// `name`: a refused move or an unreadable landed
/// file is noted as `path：移动失败` / `path：读取失败`; a registered item that
/// landed moves its registration (`move_registration`); an unregistered one
/// that landed is registered as `dir` with its item count, or as `payload`
/// with its byte size and digest. The landed name is taken in the destination once the
/// move succeeded for an unregistered item, and once it landed for a
/// registered one.
pub fn group_item_landed(src: &mut Meta, dst: &mut Meta, st: &mut GroupMove, path: &String, name: &String, landing: &Landing)
    ensures
        same_head(*final(src), *old(src)),
        same_head(*final(dst), *old(dst)),
        match *landing {
            Landing::MoveFailed => {
                &&& *final(src) == *old(src) && *final(dst) == *old(dst)
                &&& final(st).existing == old(st).existing && final(st).moved == old(st).moved
                &&& noted(old(st).errs@, final(st).errs@, path@ + "：移动失败"@)
            },
            Landing::ReadFailed => {
                &&& *final(src) == *old(src) && *final(dst) == *old(dst)
                &&& final(st).moved == old(st).moved
                &&& noted(old(st).errs@, final(st).errs@, path@ + "：读取失败"@)
                &&& final(st).existing@ == if entry_pos(old(src).entries@, path@) is Some {
                    old(st).existing@
                } else {
                    old(st).existing@.push(*name)
                }
            },
            Landing::Landed(item) => {
                &&& final(st).existing@ == old(st).existing@.push(*name)
                &&& final(st).moved@ == old(st).moved@.push(*name)
                &&& final(st).errs == old(st).errs
                &&& match entry_pos(old(src).entries@, path@) {
                    Some(i) => {
                        let en = old(src).entries@[i];
                        &&& final(src).entries@ == without_path(old(src).entries@, path@)
                        &&& exists|ne: Entry| entry_is(ne, name@, landed_role(en.role@, item.is_dir), en.title, en.note, item)
                            && final(dst).entries@ == upsert(old(dst).entries@, ne)
                    },
                    None => {
                        &&& *final(src) == *old(src)
                        &&& exists|ne: Entry| entry_is(ne, name@, landed_role("payload"@, item.is_dir), None, None, item)
                            && final(dst).entries@ == upsert(old(dst).entries@, ne)
                    },
                }
            },
        },
{
    let registered = entry_pos_exec(&src.entries, path).is_some();
    match landing {
        Landing::MoveFailed => {
            note_err(st, path, "：移动失败");
        },
        Landing::ReadFailed => {
            if !registered {
                st.existing.push(name.clone());
            }
            let ghost ex = st.existing;
            note_err(st, path, "：读取失败");
            assert(st.existing == ex);
        },
        Landing::Landed(item) => {
            st.existing.push(name.clone());
            st.moved.push(name.clone());
            if registered {
                move_registration(src, dst, path, name, item);
            } else {
                register_landed(dst, name, "payload", &None, &None, item);
            }
        },
    }
}

/// The paths of the entries of `es` that register branches (`branches`) or
/// content (`!branches`), in order.
pub open spec fn kind_paths(es: Seq<Entry>, branches: bool) -> Seq<String>
    decreases es.len(),
{
    if es.len() == 0 {
        Seq::empty()
    } else {
        let r = kind_paths(es.drop_last(), branches);
        if entry_is_branch(es.last()) == branches { r.push(es.last().path) } else { r }
    }
}

/// `seq` with each entry's `order` set to its position.
pub open spec fn numbered(seq: Seq<Entry>) -> Seq<Entry> {
    Seq::new(seq.len(), |i: int| Entry { order: Some(i as i64), ..seq[i] })
}

/// `es` after registering each of `items` in turn.
pub open spec fn upsert_all(es: Seq<Entry>, items: Seq<Entry>) -> Seq<Entry>
    decreases items.len(),
{
    if items.len() == 0 {
        es
    } else {
        upsert(upsert_all(es, items.drop_last()), items.last())
    }
}

/// Rewrites one sequence of a branch (its child branches when `branches`,
/// else its content items) as `seq`: every registration of that kind is
/// removed by path, then the entries of `seq` are registered in turn, each
/// with `order` set to its position.
pub fn rewrite_order(meta: &mut Meta, seq: &Vec<Entry>, branches: bool)
    requires
        seq@.len() <= i64::MAX,
    ensures
        same_head(*final(meta), *old(meta)),
        final(meta).entries@ == upsert_all(
            without_paths(old(meta).entries@, str_set(kind_paths(old(meta).entries@, branches))),
            numbered(seq@),
        ),
{
    let ghost es = meta.entries@;
    let mut paths: Vec<String> = Vec::new();
    let mut i: usize = 0;
    while i < meta.entries.len()
        invariant
            es == meta.entries@,
            i <= es.len(),
            paths@ == kind_paths(es.take(i as int), branches),
        decreases meta.entries.len() - i,
    {
        assert(es.take(i + 1).drop_last() =~= es.take(i as int));
        if meta.entries[i].is_branch() == branches {
            paths.push(meta.entries[i].path.clone());
        }
        i += 1;
    }
    assert(es.take(es.len() as int) =~= es);
    unregister(meta, &paths);
    let ghost base = meta.entries@;
    let mut j: usize = 0;
    while j < seq.len()
        invariant
            j <= seq@.len(),
            seq@.len() <= i64::MAX,
            meta.entries@ == upsert_all(base, numbered(seq@).take(j as int)),
            same_head(*meta, *old(meta)),
        decreases seq.len() - j,
    {
        let mut en = seq[j].copy();
        en.order = Some(j as i64);
        assert(numbered(seq@).take(j + 1).drop_last() =~= numbered(seq@).take(j as int));
        assert(numbered(seq@).take(j + 1).last() == en);
        upsert_entry(meta, en);
        j += 1;
    }
    assert(numbered(seq@).take(seq@.len() as int) =~= numbered(seq@));
}

proof fn lemma_without_paths_from(es: Seq<Entry>, gone: Set<Seq<char>>)
    ensures
        forall|k: int| 0 <= k < without_paths(es, gone).len() ==> exists|m: int| 0 <= m < es.len()
            && #[trigger] without_paths(es, gone)[k] == es[m] && !gone.contains(es[m].path@),
    decreases es.len(),
{
    if es.len() > 0 {
        lemma_without_paths_from(es.drop_last(), gone);
        let r = without_paths(es.drop_last(), gone);
        assert forall|k: int| 0 <= k < without_paths(es, gone).len() implies exists|m: int| 0 <= m < es.len()
            && #[trigger] without_paths(es, gone)[k] == es[m] && !gone.contains(es[m].path@) by {
            if k < r.len() {
                let m = choose|m: int| 0 <= m < es.drop_last().len() && #[trigger] r[k] == es.drop_last()[m]
                    && !gone.contains(es.drop_last()[m].path@);
                assert(es[m] == es.drop_last()[m]);
            } else {
                assert(without_paths(es, gone)[k] == es[es.len() - 1]);
            }
        }
    }
}

proof fn lemma_kind_paths_has(es: Seq<Entry>, branches: bool, m: int)
    requires
        0 <= m < es.len(),
        entry_is_branch(es[m]) == branches,
    ensures
        str_set(kind_paths(es, branches)).contains(es[m].path@),
    decreases es.len(),
{
    let r = kind_paths(es.drop_last(), branches);
    if m == es.len() - 1 {
        assert(kind_paths(es, branches)[r.len() as int] == es[m].path);
    } else {
        lemma_kind_paths_has(es.drop_last(), branches, m);
        let i = choose|i: int| 0 <= i < r.len() && #[trigger] r[i]@ == es.drop_last()[m].path@;
        assert(kind_paths(es, branches)[i] == r[i]);
    }
}

proof fn lemma_upsert_all_fresh(base: Seq<Entry>, items: Seq<Entry>)
    requires
        forall|a: int, b: int| 0 <= a < b < items.len() ==> items[a].path@ != items[b].path@,
        forall|a: int, k: int| 0 <= a < items.len() && 0 <= k < base.len() ==> base[k].path@ != items[a].path@,
    ensures
        upsert_all(base, items) == base + items,
    decreases items.len(),
{
    if items.len() > 0 {
        let init = items.drop_last();
        lemma_upsert_all_fresh(base, init);
        let p = items.last().path@;
        assert forall|j: int| 0 <= j < (base + init).len() implies (base + init)[j].path@ != p by {
            if j >= base.len() {
                assert((base + init)[j] == items[j - base.len()]);
            }
        }
        assert(entry_pos(base + init, p) is None);
        assert((base + init).push(items.last()) =~= base + items);
    }
}

/// Rewriting a sequence whose paths are distinct and shared with no
/// registration of the other kind keeps the other registrations in their
/// order, drops every earlier registration of the rewritten kind, and
/// appends the sequence exactly as given, numbered from 0.
pub proof fn law_rewrite_order_appends(es: Seq<Entry>, seq: Seq<Entry>, branches: bool)
    requires
        seq.len() <= i64::MAX,
        forall|a: int, b: int| 0 <= a < b < seq.len() ==> seq[a].path@ != seq[b].path@,
        forall|j: int, k: int| 0 <= j < seq.len() && 0 <= k < es.len() && entry_is_branch(es[k]) != branches
            ==> es[k].path@ != seq[j].path@,
    ensures
        ({
            let base = without_paths(es, str_set(kind_paths(es, branches)));
            &&& upsert_all(base, numbered(seq)) == base + numbered(seq)
            &&& forall|k: int| 0 <= k < base.len() ==> entry_is_branch(#[trigger] base[k]) != branches
        }),
{
    let gone = str_set(kind_paths(es, branches));
    let base = without_paths(es, gone);
    lemma_without_paths_from(es, gone);
    assert forall|k: int| 0 <= k < base.len() implies entry_is_branch(#[trigger] base[k]) != branches
        && forall|j: int| 0 <= j < seq.len() ==> base[k].path@ != seq[j].path@ by {
        let m = choose|m: int| 0 <= m < es.len() && #[trigger] base[k] == es[m] && !gone.contains(es[m].path@);
        if entry_is_branch(es[m]) == branches {
            lemma_kind_paths_has(es, branches, m);
        }
    }
    let items = numbered(seq);
    assert forall|a: int, k: int| 0 <= a < items.len() && 0 <= k < base.len() implies base[k].path@ != items[a].path@ by {
        assert(items[a].path == seq[a].path);
    }
    assert forall|a: int, b: int| 0 <= a < b < items.len() implies items[a].path@ != items[b].path@ by {
        assert(items[a].path == seq[a].path && items[b].path == seq[b].path);
    }
    lemma_upsert_all_fresh(base, items);
}

proof fn lemma_content_len(es: Seq<Entry>)
    ensures
        content_entries(es).len() <= es.len(),
    decreases es.len(),
{
    if es.len() > 0 {
        lemma_content_len(es.drop_last());
    }
}

proof fn lemma_branch_len(es: Seq<Entry>)
    ensures
        branch_entries(es).len() <= es.len(),
    decreases es.len(),
{
    if es.len() > 0 {
        lemma_branch_len(es.drop_last());
    }
}

/// Lands a moved group in the branch's content order at `pos`: the content
/// sequence becomes `group_order` of it (`moved` leave their places and
/// enter together at `pos`, clamped to the end) and is rewritten with
/// positions (`rewrite_order`).
pub fn place_group(dst: &mut Meta, moved: &Vec<String>, pos: usize)
    requires
        old(dst).entries@.len() <= i64::MAX,
    ensures
        same_head(*final(dst), *old(dst)),
        final(dst).entries@ == upsert_all(
            without_paths(old(dst).entries@, str_set(kind_paths(old(dst).entries@, false))),
            numbered(group_order(content_entries(old(dst).entries@), strs(moved@), pos as int)),
        ),
{
    let seq = content_entries_exec(&dst.entries);
    let ordered = insert_group(seq, moved, pos);
    proof {
        broadcast use vstd::seq_lib::group_to_multiset_ensures;
        lemma_content_len(old(dst).entries@);
        law_group_order_permutes(content_entries(old(dst).entries@), strs(moved@), pos as int);
        assert(ordered@.to_multiset().len() == content_entries(old(dst).entries@).to_multiset().len());
    }
    rewrite_order(dst, &ordered, false);
}

/// Lands one moved entry in the branch's content order at `pos` (the end
/// when `None` or past it), and rewrites the content sequence with
/// positions (`rewrite_order`).
pub fn place_single(dst: &mut Meta, item: Entry, pos: Option<usize>)
    requires
        old(dst).entries@.len() < i64::MAX,
    ensures
        same_head(*final(dst), *old(dst)),
        final(dst).entries@ == upsert_all(
            without_paths(old(dst).entries@, str_set(kind_paths(old(dst).entries@, false))),
            numbered(single_order(content_entries(old(dst).entries@), item, match pos { Some(p) => Some(p as int), None => None })),
        ),
{
    let seq = content_entries_exec(&dst.entries);
    proof {
        lemma_content_len(old(dst).entries@);
    }
    let ordered = insert_single(seq, item, pos);
    rewrite_order(dst, &ordered, false);
}

/// Registers a branch moved under this parent at position `pos` of its
/// child branches (clamped to the end), and rewrites the branch sequence
/// with positions (`rewrite_order`).
pub fn place_branch(parent: &mut Meta, entry: Entry, pos: usize)
    requires
        old(parent).entries@.len() < i64::MAX,
    ensures
        same_head(*final(parent), *old(parent)),
        final(parent).entries@ == upsert_all(
            without_paths(old(parent).entries@, str_set(kind_paths(old(parent).entries@, true))),
            numbered(single_order(branch_entries(old(parent).entries@), entry, Some(pos as int))),
        ),
{
    let seq = branch_entries_exec(&parent.entries);
    proof {
        lemma_branch_len(old(parent).entries@);
    }
    let ordered = insert_single(seq, entry, Some(pos));
    rewrite_order(parent, &ordered, true);
}

/// The registrations of a copied branch: the source's `es`, in order, each
/// child branch pointing at its own copy, whose new id (also its directory
/// name) is the next of `ids`.
pub open spec fn copied(es: Seq<Entry>, ids: Seq<String>) -> Seq<Entry>
    decreases es.len(),
{
    if es.len() == 0 {
        Seq::empty()
    } else {
        let r = copied(es.drop_last(), ids);
        let e = es.last();
        if entry_is_branch(e) {
            let id = ids[branch_entries(es.drop_last()).len() as int];
            r.push(Entry { path: id, id: Some(id), ..e })
        } else {
            r.push(e)
        }
    }
}

proof fn lemma_branch_prefix_len(es: Seq<Entry>, j: int)
    requires
        0 <= j <= es.len(),
    ensures
        branch_entries(es.take(j)).len() <= branch_entries(es).len(),
    decreases es.len(),
{
    if j < es.len() {
        assert(es.drop_last().take(j) =~= es.take(j));
        lemma_branch_prefix_len(es.drop_last(), j);
    } else {
        assert(es.take(j) =~= es);
    }
}

/// Registers in a branch copy (`copy`) the entries of its source (`src`),
/// in turn: each as it was, a child branch under its copy's new id (`ids`,
/// one per child branch, in order).
pub fn copy_registrations(copy: &mut Meta, src: &Vec<Entry>, ids: &Vec<String>)
    requires
        ids@.len() == branch_entries(src@).len(),
    ensures
        same_head(*final(copy), *old(copy)),
        final(copy).entries@ == upsert_all(old(copy).entries@, copied(src@, ids@)),
{
    let ghost base = copy.entries@;
    let n_ids = ids.len();
    let mut b: usize = 0;
    let mut i: usize = 0;
    while i < src.len()
        invariant
            i <= src@.len(),
            ids@.len() == branch_entries(src@).len(),
            n_ids == ids@.len(),
            b == branch_entries(src@.take(i as int)).len(),
            copy.entries@ == upsert_all(base, copied(src@.take(i as int), ids@)),
            same_head(*copy, *old(copy)),
        decreases src.len() - i,
    {
        let ghost pre = src@.take(i as int);
        assert(src@.take(i + 1).drop_last() =~= pre);
        assert(src@.take(i + 1).last() == src@[i as int]);
        proof {
            lemma_branch_prefix_len(src@, i + 1);
            assert(branch_entries(src@.take(i + 1)).len() == b + if entry_is_branch(src@[i as int]) { 1int } else { 0int });
        }
        let mut ne = src[i].copy();
        if src[i].is_branch() {
            assert(b < ids@.len());
            ne.path = ids[b].clone();
            ne.id = Some(ids[b].clone());
            b += 1;
        }
        assert(copied(src@.take(i + 1), ids@) == copied(pre, ids@).push(ne));
        assert(copied(src@.take(i + 1), ids@).drop_last() =~= copied(pre, ids@));
        upsert_entry(copy, ne);
        i += 1;
    }
    assert(src@.take(src@.len() as int) =~= src@);
}

/// A registration just made is the one found under its path: looking the
/// path up afterwards finds exactly the new entry (so a moved, pasted or
/// renamed item is found in its new branch as registered there).
pub proof fn law_upsert_found(es: Seq<Entry>, e: Entry)
    ensures
        entry_pos(upsert(es, e), e.path@) matches Some(k) && upsert(es, e)[k] == e,
{
    let p = e.path@;
    let r = upsert(es, e);
    let at = match entry_pos(es, p) {
        Some(i) => {
            lemma_entry_pos_in(es, p);
            i
        },
        None => es.len() as int,
    };
    assert(r[at] == e);
    assert(forall|m: int| 0 <= m < at ==> r[m] == es[m]);
    assert(forall|m: int| 0 <= m < at ==> es[m].path@ != p);
    lemma_entry_pos_in(r, p);
    let k = entry_pos(r, p).unwrap();
    assert(k == at) by {
        if k > at {
            assert(r[at].path@ == p);
        }
    }
}

} // verus!
