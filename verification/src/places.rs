//! Content folders and branch places: which folders are open, the display
//! title of a branch directory, nesting a branch under another, and the
//! names imported files take.
use vstd::prelude::*;
use crate::branch_move::ancestor_of;
use crate::chars::{chars_of, concat, string_of};
use crate::editor::{opt_view, Editor};
use crate::entries::VisibleEntry;
use crate::model::{dir_name, is_ancestor, scan_wf, toggled, Entry, KeySet, Meta, Scan, Visit};
use crate::text::{copy_candidate, dedup_name, first_free_copy, has_str, strs};
use crate::transfer::{comp_views, path_text, path_text_exec, rel_components, rel_components_exec};
use crate::tree::{visit_title, visit_title_of};

verus! {

/// The folder keys opened to reveal `rel_dir` inside the branch at
/// `visit_dir`: every folder along the way, the last one included.
pub open spec fn chain_keys(visit_dir: Seq<Seq<char>>, rel_dir: Seq<char>) -> Set<Seq<char>> {
    chain_upto(visit_dir, rel_components(rel_dir), rel_components(rel_dir).len() as int)
}

/// Keys of the first `m` folders along `segs` below `base`.
pub open spec fn chain_upto(base: Seq<Seq<char>>, segs: Seq<Seq<char>>, m: int) -> Set<Seq<char>> {
    Set::new(|k: Seq<char>| exists|n: int| 1 <= n <= m && k == #[trigger] path_text(base + segs.take(n)))
}

/// Opens every content folder on the way to `rel_dir` (so that an item
/// landed there is visible).
pub fn expand_dir_chain(e: &mut Editor, visit_dir: &Vec<String>, rel_dir: &str)
    requires
        old(e).wf(),
    ensures
        final(e).wf(),
        final(e).expanded_dirs@ == old(e).expanded_dirs@.union(chain_keys(comp_views(visit_dir@), rel_dir@)),
        final(e).scan == old(e).scan,
        final(e).kids == old(e).kids,
        final(e).rows == old(e).rows,
        final(e).expanded == old(e).expanded,
        final(e).selected == old(e).selected,
        final(e).selected_entry_path == old(e).selected_entry_path,
        final(e).content_expanded == old(e).content_expanded,
        final(e).entry_multi == old(e).entry_multi,
        final(e).entry_anchor == old(e).entry_anchor,
        final(e).scan_gen == old(e).scan_gen,
{
    let segs = rel_components_exec(rel_dir);
    let ghost sv = rel_components(rel_dir@);
    let ghost base = comp_views(visit_dir@);
    let mut acc: Vec<String> = Vec::new();
    let mut i: usize = 0;
    while i < visit_dir.len()
        invariant
            i <= visit_dir@.len(),
            acc@ == visit_dir@.take(i as int),
            base == comp_views(visit_dir@),
        decreases visit_dir.len() - i,
    {
        acc.push(visit_dir[i].clone());
        i += 1;
        assert(acc@ =~= visit_dir@.take(i as int));
    }
    assert(visit_dir@.take(visit_dir@.len() as int) =~= visit_dir@);
    assert(comp_views(acc@) =~= base);
    let mut k: usize = 0;
    let ghost start = e.expanded_dirs@;
    assert(comp_views(acc@) =~= base + sv.take(0));
    assert(chain_upto(base, sv, 0) =~= Set::<Seq<char>>::empty());
    assert(e.expanded_dirs@ =~= start.union(chain_upto(base, sv, 0)));
    while k < segs.len()
        invariant
            e.wf(),
            k <= segs@.len(),
            comp_views(segs@) == sv,
            comp_views(acc@) == base + sv.take(k as int),
            e.expanded_dirs@ == start.union(chain_upto(base, sv, k as int)),
            e.scan == old(e).scan,
            e.kids == old(e).kids,
            e.rows == old(e).rows,
            e.expanded == old(e).expanded,
            e.selected == old(e).selected,
            e.selected_entry_path == old(e).selected_entry_path,
            e.content_expanded == old(e).content_expanded,
            e.entry_multi == old(e).entry_multi,
            e.entry_anchor == old(e).entry_anchor,
            e.scan_gen == old(e).scan_gen,
            start == old(e).expanded_dirs@,
        decreases segs.len() - k,
    {
        let ghost before = comp_views(acc@);
        acc.push(segs[k].clone());
        assert(comp_views(acc@) =~= before.push(sv[k as int]));
        assert(sv.take(k + 1) =~= sv.take(k as int).push(sv[k as int]));
        assert(comp_views(acc@) =~= base + sv.take(k + 1));
        let key = path_text_exec(&acc);
        e.expanded_dirs.insert(&key);
        assert(chain_upto(base, sv, k + 1) =~= chain_upto(base, sv, k as int).insert(key@)) by {
            assert forall|x: Seq<char>| #[trigger] chain_upto(base, sv, k + 1).contains(x)
                implies chain_upto(base, sv, k as int).insert(key@).contains(x) by {
                let n = choose|n: int| 1 <= n <= k + 1 && x == #[trigger] path_text(base + sv.take(n));
                if n == k + 1 {
                    assert(x == key@);
                }
            }
            assert forall|x: Seq<char>| #[trigger] chain_upto(base, sv, k as int).contains(x)
                implies chain_upto(base, sv, k + 1).contains(x) by {
                let n = choose|n: int| 1 <= n <= k && x == #[trigger] path_text(base + sv.take(n));
            }
            assert(key@ == path_text(base + sv.take(k + 1)));
            assert(chain_upto(base, sv, k + 1).contains(key@));
        }
        assert(e.expanded_dirs@ =~= start.union(chain_upto(base, sv, k + 1)));
        k += 1;
    }
    assert(sv.len() == segs@.len());
}

/// Opens or closes the content folder on row `index` (folder rows only).
pub fn toggle_dir(e: &mut Editor, rows: &Vec<VisibleEntry>, index: usize)
    requires
        old(e).wf(),
    ensures
        final(e).wf(),
        final(e).expanded_dirs@ == if index < rows@.len() && rows@[index as int].is_dir {
            toggled(old(e).expanded_dirs@, path_text(comp_views(rows@[index as int].fs_path@)))
        } else {
            old(e).expanded_dirs@
        },
        final(e).scan == old(e).scan,
        final(e).kids == old(e).kids,
        final(e).rows == old(e).rows,
        final(e).expanded == old(e).expanded,
        final(e).selected == old(e).selected,
        final(e).selected_entry_path == old(e).selected_entry_path,
        final(e).content_expanded == old(e).content_expanded,
        final(e).entry_multi == old(e).entry_multi,
        final(e).entry_anchor == old(e).entry_anchor,
        final(e).scan_gen == old(e).scan_gen,
{
    if index >= rows.len() || !rows[index].is_dir {
        return;
    }
    let key = path_text_exec(&rows[index].fs_path);
    if e.expanded_dirs.contains(&key) {
        e.expanded_dirs.remove(&key);
    } else {
        e.expanded_dirs.insert(&key);
    }
}

/// A hexadecimal digit.
pub open spec fn is_hex(c: char) -> bool {
    ('0' <= c && c <= '9') || ('a' <= c && c <= 'f') || ('A' <= c && c <= 'F')
}

/// A UUID in text form: 8-4-4-4-12 hexadecimal digits joined by hyphens.
pub open spec fn is_uuid(t: Seq<char>) -> bool {
    &&& t.len() == 36
    &&& forall|i: int| 0 <= i < 36 ==> if i == 8 || i == 13 || i == 18 || i == 23 {
        #[trigger] t[i] == '-'
    } else {
        is_hex(t[i])
    }
}

/// Whether a name is a UUID (see `is_uuid`).
pub fn is_uuid_name(name: &String) -> (r: bool)
    ensures
        r == is_uuid(name@),
{
    let t = chars_of(name.as_str());
    if t.len() != 36 {
        return false;
    }
    let mut i: usize = 0;
    while i < 36
        invariant
            t@ == name@,
            t@.len() == 36,
            i <= 36,
            forall|j: int| 0 <= j < i ==> if j == 8 || j == 13 || j == 18 || j == 23 {
                #[trigger] t@[j] == '-'
            } else {
                is_hex(t@[j])
            },
        decreases 36 - i,
    {
        let c = t[i];
        let ok = if i == 8 || i == 13 || i == 18 || i == 23 {
            c == '-'
        } else {
            ('0' <= c && c <= '9') || ('a' <= c && c <= 'f') || ('A' <= c && c <= 'F')
        };
        if !ok {
            return false;
        }
        i += 1;
    }
    true
}

/// The name a branch directory falls back to: its directory name, the
/// empty text for a UUID-named directory, `根分支` for one without a name.
pub open spec fn dir_fallback(dir: Seq<Seq<char>>) -> Seq<char> {
    if dir.len() > 0 && dir.last().len() > 0 {
        if is_uuid(dir.last()) { Seq::<char>::empty() } else { dir.last() }
    } else {
        "根分支"@
    }
}

/// A readable name of a branch directory for status messages: the title of
/// the branch scanned at that directory, unless it has none; otherwise the
/// fallback name (see `dir_fallback`).
pub open spec fn dir_title(s: Option<Scan>, dir: Seq<Seq<char>>) -> Seq<char> {
    let by_name = dir_fallback(dir);
    match s {
        Some(s) => if exists|i: int| 0 <= i < s.visits.len() && comp_views(s.visits[i].dir@) == dir {
            let i = choose|i: int| 0 <= i < s.visits.len() && comp_views(s.visits[i].dir@) == dir
                && forall|j: int| 0 <= j < i ==> comp_views(s.visits[j].dir@) != dir;
            if visit_title_of(s.visits[i]) == "（无标题）"@ { by_name } else { visit_title_of(s.visits[i]) }
        } else {
            by_name
        },
        None => by_name,
    }
}

/// Title of a branch directory (see `dir_title`).
pub fn title_of_dir(e: &Editor, dir: &Vec<String>) -> (r: String)
    ensures
        r@ == dir_title(e.scan, comp_views(dir@)),
{
    let by_name = if dir.len() > 0 && !dir[dir.len() - 1].as_str().is_empty() {
        if is_uuid_name(&dir[dir.len() - 1]) { String::new() } else { dir[dir.len() - 1].clone() }
    } else {
        "根分支".to_owned()
    };
    assert(by_name@ == dir_fallback(comp_views(dir@)));
    match &e.scan {
        Some(s) => {
            let mut i: usize = 0;
            while i < s.visits.len()
                invariant
                    e.scan == Some(*s),
                    by_name@ == dir_fallback(comp_views(dir@)),
                    i <= s.visits@.len(),
                    forall|j: int| 0 <= j < i ==> comp_views(s.visits[j].dir@) != comp_views(dir@),
                decreases s.visits.len() - i,
            {
                if crate::transfer::dir_prefix_exec(&s.visits[i].dir, dir) && s.visits[i].dir.len() == dir.len() {
                    assert(comp_views(s.visits[i as int].dir@) =~= comp_views(dir@)) by {
                        assert(comp_views(dir@).take(comp_views(s.visits[i as int].dir@).len() as int) =~= comp_views(dir@));
                    }
                    let ghost w = choose|w: int| 0 <= w < s.visits.len() && comp_views(s.visits[w].dir@) == comp_views(dir@)
                        && forall|j: int| 0 <= j < w ==> comp_views(s.visits[j].dir@) != comp_views(dir@);
                    assert(w == i) by {
                        if w > i {
                            assert(comp_views(s.visits[i as int].dir@) == comp_views(dir@));
                        }
                    }
                    let title = visit_title(&s.visits[i]);
                    if title == "（无标题）".to_owned() {
                        return by_name;
                    }
                    return title;
                }
                proof {
                    if comp_views(s.visits[i as int].dir@) == comp_views(dir@) {
                        assert(crate::transfer::dir_prefix(comp_views(s.visits[i as int].dir@), comp_views(dir@))) by {
                            assert(comp_views(dir@).take(comp_views(dir@).len() as int) =~= comp_views(dir@));
                        }
                    }
                }
                i += 1;
            }
            by_name
        },
        None => by_name,
    }
}

/// Nesting branch `src` as the last child of `target`: what moves where.
pub struct NestPlan {
    pub src_dir: Vec<String>,
    pub target_dir: Vec<String>,
    pub src_parent_dir: Vec<String>,
    pub target_title: String,
    /// Directory name of the moved branch.
    pub name: String,
    /// `node` under the root, `branch` below.
    pub new_role: String,
}

/// Why nesting `src` under `target` is refused, if it is.
pub open spec fn nest_refusal(s: Option<Scan>, src: int, target: int) -> Option<Seq<char>> {
    match s {
        None => Some("未打开 bundle"@),
        Some(s) => if !(0 <= src < s.visits.len()) || !(0 <= target < s.visits.len()) || src == target {
            Some("分支无效"@)
        } else if s.visits[src].depth == 0 {
            Some("ROOT 不可拖动"@)
        } else if is_ancestor(s, src, target) {
            Some("不能把分支移入其自身内部"@)
        } else if s.visits[src].parent is None {
            Some("ROOT 不可拖动"@)
        } else if dir_name(s.visits[src]) is None {
            Some("无法取得分支 id"@)
        } else {
            None
        },
    }
}

fn copy_comps(d: &Vec<String>) -> (r: Vec<String>)
    ensures
        r@ == d@,
{
    let mut out: Vec<String> = Vec::new();
    let mut i: usize = 0;
    while i < d.len()
        invariant
            i <= d@.len(),
            out@ == d@.take(i as int),
        decreases d.len() - i,
    {
        out.push(d[i].clone());
        i += 1;
        assert(out@ =~= d@.take(i as int));
    }
    assert(d@.take(d@.len() as int) =~= d@);
    out
}

/// Plans nesting branch `src` as the last child of `target` (structure-tree
/// drop on a row's upper half).
pub fn nest_plan(e: &Editor, src: usize, target: usize) -> (r: Result<NestPlan, String>)
    requires
        e.wf(),
    ensures
        match nest_refusal(e.scan, src as int, target as int) {
            Some(msg) => r matches Err(m) && m@ == msg,
            None => r matches Ok(p) && {
                let s = e.scan.unwrap();
                &&& p.src_dir@ == s.visits[src as int].dir@
                &&& p.target_dir@ == s.visits[target as int].dir@
                &&& p.src_parent_dir@ == s.visits[s.visits[src as int].parent.unwrap() as int].dir@
                &&& p.target_title@ == visit_title_of(s.visits[target as int])
                &&& Some(p.name@) == dir_name(s.visits[src as int])
                &&& p.new_role@ == if s.visits[target as int].depth == 0 { "node"@ } else { "branch"@ }
            },
        },
{
    let s = match &e.scan {
        Some(s) => s,
        None => {
            return Err("未打开 bundle".to_owned());
        },
    };
    if src >= s.visits.len() || target >= s.visits.len() || src == target {
        return Err("分支无效".to_owned());
    }
    if s.visits[src].depth == 0 {
        return Err("ROOT 不可拖动".to_owned());
    }
    if ancestor_of(s, src, target) {
        return Err("不能把分支移入其自身内部".to_owned());
    }
    let sp = match s.visits[src].parent {
        Some(p) => p,
        None => {
            return Err("ROOT 不可拖动".to_owned());
        },
    };
    let d = &s.visits[src].dir;
    if d.len() == 0 {
        return Err("无法取得分支 id".to_owned());
    }
    let name = d[d.len() - 1].clone();
    let new_role = if s.visits[target].depth == 0 { "node".to_owned() } else { "branch".to_owned() };
    Ok(NestPlan {
        src_dir: copy_comps(&s.visits[src].dir),
        target_dir: copy_comps(&s.visits[target].dir),
        src_parent_dir: copy_comps(&s.visits[sp].dir),
        target_title: visit_title(&s.visits[target]),
        name,
        new_role,
    })
}

/// Status text after nesting a branch.
pub fn nest_message(name: &str, from_title: &str, target_title: &str) -> (r: String)
    ensures
        r@ == "已把分支「"@ + name@ + "」从「"@ + from_title@ + "」移入「"@ + target_title@ + "」下。"@,
{
    let out = concat(&concat(&concat(&concat(&concat(&concat(&chars_of("已把分支「"), &chars_of(name)), &chars_of("」从「")), &chars_of(from_title)), &chars_of("」移入「")), &chars_of(target_title)), &chars_of("」下。"));
    string_of(&out)
}

/// Names imported files take, in order: each a free Finder-style copy name
/// of its own name among the registered names and the names taken by the
/// files imported before it.
pub open spec fn import_names_ok(existing: Seq<String>, names: Seq<Seq<char>>, r: Seq<String>) -> bool {
    &&& r.len() == names.len()
    &&& forall|i: int| 0 <= i < r.len() ==> #[trigger] import_name_ok(existing, names, r, i)
}

/// Import `i` took the first free copy name of its own name.
pub open spec fn import_name_ok(existing: Seq<String>, names: Seq<Seq<char>>, r: Seq<String>, i: int) -> bool {
    exists|k: nat| #[trigger] copy_candidate(names[i], k) == r[i]@ && first_free_copy(existing + r.take(i), names[i], k)
}

/// Chooses the names of imported files (see `import_names_ok`).
pub fn plan_import_names(existing: &Vec<String>, names: &Vec<String>) -> (r: Vec<String>)
    ensures
        import_names_ok(existing@, strs(names@), r@),
{
    let mut taken: Vec<String> = Vec::new();
    let mut i: usize = 0;
    while i < existing.len()
        invariant
            i <= existing@.len(),
            taken@ == existing@.take(i as int),
        decreases existing.len() - i,
    {
        taken.push(existing[i].clone());
        i += 1;
        assert(taken@ =~= existing@.take(i as int));
    }
    assert(existing@.take(existing@.len() as int) =~= existing@);
    let mut out: Vec<String> = Vec::new();
    let mut j: usize = 0;
    while j < names.len()
        invariant
            j <= names@.len(),
            out@.len() == j,
            taken@ == existing@ + out@,
            forall|t: int| 0 <= t < j ==> #[trigger] import_name_ok(existing@, strs(names@), out@, t),
        decreases names.len() - j,
    {
        let n = dedup_name(taken.as_slice(), names[j].as_str());
        assert(strs(names@)[j as int] == names@[j as int]@);
        let ghost before = out@;
        assert(taken@ == existing@ + before);
        out.push(n.clone());
        taken.push(n);
        assert(out@.take(j as int) =~= before);
        assert forall|t: int| 0 <= t < j + 1 implies #[trigger] import_name_ok(existing@, strs(names@), out@, t) by {
            if t < j {
                assert(out@.take(t) =~= before.take(t));
                assert(out@[t] == before[t]);
                assert(import_name_ok(existing@, strs(names@), before, t));
            } else {
                assert(out@[t] == n);
            }
        }
        assert(taken@ =~= existing@ + out@);
        j += 1;
    }
    out
}

/// The registered paths of a branch's entries.
pub open spec fn entry_paths(es: Seq<Entry>) -> Seq<String> {
    Seq::new(es.len(), |i: int| es[i].path)
}

/// The names given, in order (sources without a name dropped).
pub open spec fn given_names(names: Seq<Option<String>>) -> Seq<Seq<char>>
    decreases names.len(),
{
    if names.len() == 0 {
        Seq::empty()
    } else {
        let r = given_names(names.drop_last());
        match names.last() {
            Some(n) => r.push(n@),
            None => r,
        }
    }
}

/// Plans importing files into the branch with `._meta` `m`: `names` holds
/// each source's file name (`None` for a source without one, or missing).
/// With nothing importable the import is refused; otherwise each source
/// takes a free Finder-style name among the registered paths and the names
/// taken before it (see `import_names_ok`).
pub fn import_plan(m: &Meta, names: &Vec<Option<String>>) -> (r: Result<Vec<String>, String>)
    ensures
        given_names(names@).len() == 0 ==> (r matches Err(x) && x@ == "没有可导入的文件"@),
        given_names(names@).len() > 0 ==> (r matches Ok(v) && import_names_ok(entry_paths(m.entries@), given_names(names@), v@)),
{
    let mut existing: Vec<String> = Vec::new();
    let mut i: usize = 0;
    while i < m.entries.len()
        invariant
            i <= m.entries@.len(),
            existing@ == entry_paths(m.entries@).take(i as int),
        decreases m.entries.len() - i,
    {
        existing.push(m.entries[i].path.clone());
        i += 1;
        assert(existing@ =~= entry_paths(m.entries@).take(i as int));
    }
    assert(entry_paths(m.entries@).take(m.entries@.len() as int) =~= entry_paths(m.entries@));
    let mut given: Vec<String> = Vec::new();
    let mut j: usize = 0;
    while j < names.len()
        invariant
            j <= names@.len(),
            strs(given@) == given_names(names@.take(j as int)),
        decreases names.len() - j,
    {
        assert(names@.take(j + 1).drop_last() =~= names@.take(j as int));
        match &names[j] {
            Some(n) => {
                let ghost before = strs(given@);
                given.push(n.clone());
                assert(strs(given@) =~= before.push(n@));
            },
            None => {},
        }
        j += 1;
    }
    assert(names@.take(names@.len() as int) =~= names@);
    if given.len() == 0 {
        return Err("没有可导入的文件".to_owned());
    }
    Ok(plan_import_names(&existing, &given))
}

} // verus!
