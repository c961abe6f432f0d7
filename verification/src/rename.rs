//! Batch rename (Finder's "Rename items…"): new names by find/replace or by
//! prefix/suffix, rejected as a whole on an invalid name or a clash.
use vstd::prelude::*;
use crate::chars::{
    after_last, after_last_exec, chars_of, concat, matches_at, matches_at_exec, push_all,
    rsplit_once, rsplit_once_exec, starts_with, string_of, trim, trim_exec,
};
use crate::model::KeySet;

verus! {

/// `str::replace` with a non-empty pattern: every non-overlapping match,
/// left to right, replaced.
pub open spec fn replace_all(s: Seq<char>, f: Seq<char>, r: Seq<char>) -> Seq<char>
    decreases s.len(),
{
    if f.len() == 0 || s.len() == 0 {
        s
    } else if starts_with(s, f) {
        r + replace_all(s.skip(f.len() as int), f, r)
    } else {
        seq![s[0]] + replace_all(s.drop_first(), f, r)
    }
}

/// Replaces every occurrence of `f` (non-empty) in `s` by `r`.
pub fn replace_exec(s: &[char], f: &[char], r: &[char]) -> (out: Vec<char>)
    requires
        f@.len() > 0,
    ensures
        out@ == replace_all(s@, f@, r@),
{
    let mut out: Vec<char> = Vec::new();
    let mut i: usize = 0;
    assert(s@.skip(0) =~= s@);
    assert(out@ + replace_all(s@.skip(0), f@, r@) =~= replace_all(s@, f@, r@));
    while i < s.len()
        invariant
            f@.len() > 0,
            i <= s@.len(),
            replace_all(s@, f@, r@) == out@ + replace_all(s@.skip(i as int), f@, r@),
        decreases s.len() - i,
    {
        let ghost rest = s@.skip(i as int);
        if matches_at_exec(s, f, i) {
            assert(rest.subrange(0, f@.len() as int) =~= s@.subrange(i as int, i + f@.len()));
            assert(starts_with(rest, f@));
            assert(rest.skip(f@.len() as int) =~= s@.skip(i + f@.len()));
            let ghost before = out@;
            push_all(&mut out, r);
            assert(out@ + replace_all(s@.skip(i + f@.len()), f@, r@) =~= before + (r@ + replace_all(rest.skip(f@.len() as int), f@, r@)));
            i = i + f.len();
        } else {
            assert(!starts_with(rest, f@)) by {
                if starts_with(rest, f@) {
                    assert(rest.subrange(0, f@.len() as int) =~= s@.subrange(i as int, i + f@.len()));
                }
            }
            let ghost before = out@;
            out.push(s[i]);
            assert(rest.drop_first() =~= s@.skip(i + 1));
            assert(out@ + replace_all(s@.skip(i + 1), f@, r@) =~= before + (seq![rest[0]] + replace_all(rest.drop_first(), f@, r@)));
            i = i + 1;
        }
    }
    assert(s@.skip(i as int).len() == 0);
    assert(out@ + s@.skip(i as int) =~= out@);
    out
}

/// The new name of the item at `path`: its file name with `find` replaced
/// (mode 0), else wrapped in `prefix` / `suffix` — the suffix goes before
/// the extension when there is one.
pub open spec fn renamed(mode: i32, find: Seq<char>, replace: Seq<char>, prefix: Seq<char>, suffix: Seq<char>, path: Seq<char>) -> Seq<char> {
    let name = after_last(path, '/');
    if mode == 0 {
        replace_all(name, find, replace)
    } else {
        match rsplit_once(name, '.') {
            Some((stem, ext)) => if ext.len() > 0 {
                prefix + stem + suffix + "."@ + ext
            } else {
                prefix + name + suffix
            },
            None => prefix + name + suffix,
        }
    }
}

/// Names an item may not take: empty, with a `/`, hidden (leading `.`,
/// which also covers `._meta`).
pub open spec fn bad_name(n: Seq<char>) -> bool {
    n.len() == 0 || n.contains('/') || starts_with(n, "."@) || n == "._meta"@
}

/// The rename walk over `items[i..]`: every new name must be valid and free
/// (names taken = registered names, minus each renamed item's old name,
/// plus the new names given so far); pairs accumulate in `acc`.
pub open spec fn rename_walk(
    items: Seq<Seq<char>>,
    i: int,
    taken: Set<Seq<char>>,
    acc: Seq<(Seq<char>, Seq<char>)>,
    mode: i32,
    find: Seq<char>,
    replace: Seq<char>,
    prefix: Seq<char>,
    suffix: Seq<char>,
) -> Result<Seq<(Seq<char>, Seq<char>)>, Seq<char>>
    decreases items.len() - i,
{
    if i < 0 || i >= items.len() {
        Ok(acc)
    } else {
        let path = items[i];
        let n = renamed(mode, find, replace, prefix, suffix, path);
        if bad_name(n) {
            Err("名称无效：「"@ + n + "」（"@ + path + "）。"@)
        } else if n == path {
            rename_walk(items, i + 1, taken, acc.push((path, n)), mode, find, replace, prefix, suffix)
        } else if taken.remove(path).contains(n) {
            Err("名称冲突：「"@ + n + "」已存在。"@)
        } else {
            rename_walk(items, i + 1, taken.remove(path).insert(n), acc.push((path, n)), mode, find, replace, prefix, suffix)
        }
    }
}

/// The pairs whose name changes.
pub open spec fn changed_pairs(ps: Seq<(Seq<char>, Seq<char>)>) -> Seq<(Seq<char>, Seq<char>)>
    decreases ps.len(),
{
    if ps.len() == 0 {
        ps
    } else {
        let r = changed_pairs(ps.drop_last());
        if ps.last().0 != ps.last().1 { r.push(ps.last()) } else { r }
    }
}

/// The outcome of a batch rename request.
pub open spec fn rename_plan_of(
    mode: i32,
    find: Seq<char>,
    replace: Seq<char>,
    prefix: Seq<char>,
    suffix: Seq<char>,
    items: Seq<Seq<char>>,
    registered: Set<Seq<char>>,
) -> Result<Seq<(Seq<char>, Seq<char>)>, Seq<char>> {
    let f = trim(find);
    if mode == 0 && f.len() == 0 {
        Err("查找内容不能为空。"@)
    } else if mode == 1 && prefix.len() == 0 && suffix.len() == 0 {
        Err("前缀与后缀不能同时为空。"@)
    } else if items.len() < 2 {
        Err("批量重新命名需要选中至少 2 个条目。"@)
    } else {
        match rename_walk(items, 0, registered, Seq::empty(), mode, f, replace, prefix, suffix) {
            Err(e) => Err(e),
            Ok(ps) => if changed_pairs(ps).len() == 0 {
                Err("没有需要重命名的条目。"@)
            } else {
                Ok(changed_pairs(ps))
            },
        }
    }
}

/// The strings of a list.
pub open spec fn str_views(v: Seq<String>) -> Seq<Seq<char>> {
    Seq::new(v.len(), |i: int| v[i]@)
}

/// The pairs of a list of string pairs.
pub open spec fn pair_views(v: Seq<(String, String)>) -> Seq<(Seq<char>, Seq<char>)> {
    Seq::new(v.len(), |i: int| (v[i].0@, v[i].1@))
}

fn renamed_exec(mode: i32, find: &[char], replace: &[char], prefix: &[char], suffix: &[char], path: &String) -> (r: Vec<char>)
    requires
        mode == 0 ==> find@.len() > 0,
    ensures
        r@ == renamed(mode, find@, replace@, prefix@, suffix@, path@),
{
    let p = chars_of(path.as_str());
    let name = after_last_exec(&p, '/');
    if mode == 0 {
        replace_exec(&name, find, replace)
    } else {
        match rsplit_once_exec(&name, '.') {
            Some((stem, ext)) => if ext.len() > 0 {
                let mut dot: Vec<char> = Vec::new();
                dot.push('.');
                assert(dot@ == "."@) by {
                    reveal_strlit(".");
                }
                concat(&concat(&concat(&concat(prefix, &stem), suffix), &dot), &ext)
            } else {
                concat(&concat(prefix, &name), suffix)
            },
            None => concat(&concat(prefix, &name), suffix),
        }
    }
}

fn bad_name_exec(n: &[char]) -> (r: bool)
    ensures
        r == bad_name(n@),
{
    proof {
        reveal_strlit(".");
        reveal_strlit("._meta");
    }
    if n.len() == 0 {
        return true;
    }
    let mut i: usize = 0;
    while i < n.len()
        invariant
            i <= n@.len(),
            forall|j: int| 0 <= j < i ==> n@[j] != '/',
        decreases n.len() - i,
    {
        if n[i] == '/' {
            assert(n@.contains('/'));
            return true;
        }
        i += 1;
    }
    assert(!n@.contains('/'));
    if n[0] == '.' {
        assert(starts_with(n@, "."@)) by {
            assert(n@.subrange(0, 1) =~= "."@);
        }
        return true;
    }
    assert(!starts_with(n@, "."@)) by {
        if starts_with(n@, "."@) {
            assert(n@.subrange(0, 1)[0] == '.');
        }
    }
    assert(n@ != "._meta"@) by {
        if n@ == "._meta"@ {
            assert(n@[0] == '.');
        }
    }
    false
}

/// Plans a batch rename of `items` (paths of the selected entries) in a
/// branch whose registered entry paths are `registered`. `mode` 0 replaces
/// `find` (trimmed, must not be empty) by `replace` in each file name; any
/// other mode adds `prefix` and `suffix` (mode 1 needs at least one). At
/// least two items are needed; the first invalid or clashing new name
/// rejects the whole batch; unchanged names are dropped, and a batch that
/// changes nothing is refused. Returns the `(old path, new name)` pairs.
pub fn batch_rename_plan(
    mode: i32,
    find: &str,
    replace: &str,
    prefix: &str,
    suffix: &str,
    items: &Vec<String>,
    registered: &Vec<String>,
) -> (r: Result<Vec<(String, String)>, String>)
    ensures
        match r {
            Ok(ps) => rename_plan_of(mode, find@, replace@, prefix@, suffix@, str_views(items@), crate::model::str_set(registered@)) == Ok::<Seq<(Seq<char>, Seq<char>)>, Seq<char>>(pair_views(ps@)),
            Err(e) => rename_plan_of(mode, find@, replace@, prefix@, suffix@, str_views(items@), crate::model::str_set(registered@)) == Err::<Seq<(Seq<char>, Seq<char>)>, Seq<char>>(e@),
        },
{
    let f = trim_exec(&chars_of(find));
    let rp = chars_of(replace);
    let pre = chars_of(prefix);
    let suf = chars_of(suffix);
    if mode == 0 && f.len() == 0 {
        return Err("查找内容不能为空。".to_owned());
    }
    if mode == 1 && pre.len() == 0 && suf.len() == 0 {
        return Err("前缀与后缀不能同时为空。".to_owned());
    }
    if items.len() < 2 {
        return Err("批量重新命名需要选中至少 2 个条目。".to_owned());
    }
    let mut taken = KeySet::new();
    let mut k: usize = 0;
    while k < registered.len()
        invariant
            taken.wf(),
            k <= registered@.len(),
            taken@ == Set::new(|x: Seq<char>| exists|j: int| 0 <= j < k && #[trigger] registered@[j]@ == x),
        decreases registered.len() - k,
    {
        taken.insert(&registered[k]);
        assert(taken@ =~= Set::new(|x: Seq<char>| exists|j: int| 0 <= j < k + 1 && #[trigger] registered@[j]@ == x)) by {
            assert forall|x: Seq<char>| taken@.contains(x) implies (exists|j: int| 0 <= j < k + 1 && #[trigger] registered@[j]@ == x) by {
                if x != registered@[k as int]@ {
                    let j = choose|j: int| 0 <= j < k && #[trigger] registered@[j]@ == x;
                }
            }
        }
        k += 1;
    }
    assert(taken@ =~= crate::model::str_set(registered@));
    let ghost goal = rename_walk(str_views(items@), 0, taken@, Seq::empty(), mode, f@, rp@, pre@, suf@);
    let mut pairs: Vec<(String, String)> = Vec::new();
    let mut i: usize = 0;
    assert(pair_views(pairs@) =~= Seq::<(Seq<char>, Seq<char>)>::empty());
    while i < items.len()
        invariant
            taken.wf(),
            i <= items@.len(),
            mode == 0 ==> f@.len() > 0,
            f@ == trim(find@),
            rp@ == replace@,
            pre@ == prefix@,
            suf@ == suffix@,
            !(mode == 0 && f@.len() == 0),
            !(mode == 1 && prefix@.len() == 0 && suffix@.len() == 0),
            items@.len() >= 2,
            goal == rename_walk(str_views(items@), 0, crate::model::str_set(registered@), Seq::empty(), mode, f@, rp@, pre@, suf@),
            rename_walk(str_views(items@), i as int, taken@, pair_views(pairs@), mode, f@, rp@, pre@, suf@) == goal,
        decreases items.len() - i,
    {
        let path = &items[i];
        let n = renamed_exec(mode, &f, &rp, &pre, &suf, path);
        assert(str_views(items@)[i as int] == path@);
        if bad_name_exec(&n) {
            let msg = concat(&concat(&concat(&concat(&chars_of("名称无效：「"), &n), &chars_of("」（")), &chars_of(path.as_str())), &chars_of("）。"));
            assert(msg@ == "名称无效：「"@ + n@ + "」（"@ + path@ + "）。"@);
            return Err(string_of(&msg));
        }
        let new_name = string_of(&n);
        if new_name == *path {
            let ghost before = pair_views(pairs@);
            pairs.push((path.clone(), new_name));
            assert(pair_views(pairs@) =~= before.push((path@, n@)));
        } else {
            taken.remove(path);
            if taken.contains(&new_name) {
                let msg = concat(&concat(&chars_of("名称冲突：「"), &n), &chars_of("」已存在。"));
                assert(msg@ == "名称冲突：「"@ + n@ + "」已存在。"@);
                return Err(string_of(&msg));
            }
            taken.insert(&new_name);
            let ghost before = pair_views(pairs@);
            pairs.push((path.clone(), new_name));
            assert(pair_views(pairs@) =~= before.push((path@, n@)));
        }
        i += 1;
    }
    let ghost all = pair_views(pairs@);
    assert(goal == Ok::<Seq<(Seq<char>, Seq<char>)>, Seq<char>>(all));
    let mut out: Vec<(String, String)> = Vec::new();
    let mut j: usize = 0;
    while j < pairs.len()
        invariant
            j <= pairs@.len(),
            all == pair_views(pairs@),
            pair_views(out@) == changed_pairs(all.take(j as int)),
        decreases pairs.len() - j,
    {
        assert(all.take(j + 1).drop_last() =~= all.take(j as int));
        if pairs[j].0 != pairs[j].1 {
            let ghost before = pair_views(out@);
            out.push((pairs[j].0.clone(), pairs[j].1.clone()));
            assert(pair_views(out@) =~= before.push(all[j as int]));
        }
        j += 1;
    }
    assert(all.take(pairs@.len() as int) =~= all);
    if out.len() == 0 {
        return Err("没有需要重命名的条目。".to_owned());
    }
    Ok(out)
}

/// The first index at or after `i` where `f` occurs in `s`.
pub open spec fn next_match(s: Seq<char>, f: Seq<char>, i: int) -> Option<int>
    decreases s.len() - i,
{
    if i < 0 || i >= s.len() || i + f.len() > s.len() {
        None
    } else if matches_at(s, f, i) {
        Some(i)
    } else {
        next_match(s, f, i + 1)
    }
}

/// Every match of `f` (non-empty) replaced by `r` as `str::replace` finds
/// them: the text before the first match, `r`, then the text after that
/// match treated the same way; without a match the text is unchanged.
pub open spec fn replace_matches(s: Seq<char>, f: Seq<char>, r: Seq<char>) -> Seq<char>
    decreases s.len(),
{
    match next_match(s, f, 0) {
        Some(j) => if f.len() > 0 && 0 <= j && j + f.len() <= s.len() {
            s.take(j) + r + replace_matches(s.skip(j + f.len()), f, r)
        } else {
            s
        },
        None => s,
    }
}

proof fn lemma_next_match(s: Seq<char>, f: Seq<char>, i: int)
    requires
        0 <= i,
        f.len() > 0,
    ensures
        match next_match(s, f, i) {
            Some(j) => i <= j && j + f.len() <= s.len() && matches_at(s, f, j)
                && forall|k: int| i <= k < j ==> !matches_at(s, f, k),
            None => forall|k: int| i <= k ==> !matches_at(s, f, k),
        },
    decreases s.len() - i,
{
    if i < s.len() && i + f.len() <= s.len() && !matches_at(s, f, i) {
        lemma_next_match(s, f, i + 1);
    }
}

/// Without a match before `i`, replacing leaves the first `i` characters
/// as they are.
proof fn lemma_replace_prefix(s: Seq<char>, f: Seq<char>, r: Seq<char>, i: int)
    requires
        f.len() > 0,
        0 <= i <= s.len(),
        forall|k: int| 0 <= k < i ==> !matches_at(s, f, k),
    ensures
        replace_all(s, f, r) == s.take(i) + replace_all(s.skip(i), f, r),
    decreases i,
{
    if i == 0 {
        assert(s.skip(0) =~= s);
        assert(s.take(0) + s =~= s);
    } else {
        assert(!matches_at(s, f, 0));
        let t = s.drop_first();
        assert forall|k: int| 0 <= k < i - 1 implies !matches_at(t, f, k) by {
            if matches_at(t, f, k) {
                assert(s.subrange(k + 1, k + 1 + f.len()) =~= t.subrange(k, k + f.len()));
                assert(matches_at(s, f, k + 1));
                assert(!matches_at(s, f, k + 1));
            }
        }
        lemma_replace_prefix(t, f, r, i - 1);
        assert(t.skip(i - 1) =~= s.skip(i));
        assert(seq![s[0]] + t.take(i - 1) =~= s.take(i));
    }
}

/// Batch renames replace as `str::replace` does: every non-overlapping
/// match of the find text, left to right, becomes the replacement, and
/// the text between matches is kept.
pub proof fn law_replace_is_str_replace(s: Seq<char>, f: Seq<char>, r: Seq<char>)
    requires
        f.len() > 0,
    ensures
        replace_all(s, f, r) == replace_matches(s, f, r),
    decreases s.len(),
{
    lemma_next_match(s, f, 0);
    match next_match(s, f, 0) {
        None => {
            lemma_replace_prefix(s, f, r, s.len() as int);
            assert(s.skip(s.len() as int).len() == 0);
            assert(s.take(s.len() as int) =~= s);
            assert(s.take(s.len() as int) + s.skip(s.len() as int) =~= s);
        },
        Some(j) => {
            lemma_replace_prefix(s, f, r, j);
            let rest = s.skip(j);
            assert(rest.subrange(0, f.len() as int) =~= s.subrange(j, j + f.len()));
            assert(starts_with(rest, f));
            assert(rest.skip(f.len() as int) =~= s.skip(j + f.len()));
            law_replace_is_str_replace(s.skip(j + f.len()), f, r);
            assert(s.take(j) + (r + replace_all(s.skip(j + f.len()), f, r)) =~= s.take(j) + r + replace_matches(s.skip(j + f.len()), f, r));
        },
    }
}

/// With a one-character find text absent from the replacement, no such
/// character is left in the new name.
pub proof fn law_replace_char_leaves_none(s: Seq<char>, c: char, r: Seq<char>)
    requires
        !r.contains(c),
    ensures
        !replace_all(s, seq![c], r).contains(c),
    decreases s.len(),
{
    let f = seq![c];
    if s.len() > 0 {
        if starts_with(s, f) {
            law_replace_char_leaves_none(s.skip(1), c, r);
            let t = replace_all(s.skip(1), f, r);
            assert forall|k: int| 0 <= k < (r + t).len() implies (r + t)[k] != c by {
                if k >= r.len() {
                    assert((r + t)[k] == t[k - r.len()]);
                } else {
                    assert(r[k] != c);
                }
            }
        } else {
            assert(s.subrange(0, 1) =~= seq![s[0]]);
            assert(s[0] != c);
            law_replace_char_leaves_none(s.drop_first(), c, r);
            let t = replace_all(s.drop_first(), f, r);
            assert forall|k: int| 0 <= k < (seq![s[0]] + t).len() implies (seq![s[0]] + t)[k] != c by {
                if k >= 1 {
                    assert((seq![s[0]] + t)[k] == t[k - 1]);
                }
            }
        }
    }
}

} // verus!
