//! Drag-and-drop payloads of content rows (`"visit|path"`, or for a
//! multi-selection `"visit|path1\npath2…"`), the action-target list, and the
//! branch-relative paths of entries inside content folders.
use vstd::prelude::*;
use crate::chars::{
    all_digits, chars_of, concat, dec, dec_exec, digit, digit_value, digits_value, first_index,
    is_digit, is_ws, join, join_exec, lemma_dec_shape, lines, lines_exec, non_empty, non_empty_exec,
    parse_usize, parse_usize_exec, split_by, split_on, split_once, split_once_exec, string_of,
    strip_cr, trim, trim_all, trim_each, trim_end, trim_exec, trim_start, unsigned_body, views,
};
use crate::text::{lemma_trim_sub, strs, to_char_vecs, to_strings};

verus! {

/// A single-row payload: the branch index before the first `'|'` (plain
/// decimal, optional `+`), the trimmed non-empty path after it.
pub open spec fn transfer_single(t: Seq<char>) -> Option<(usize, Seq<char>)> {
    match split_once(t, '|') {
        Some((v, p)) => match parse_usize(v) {
            Some(n) => if trim(p).len() > 0 { Some((n, trim(p))) } else { None },
            None => None,
        },
        None => None,
    }
}

/// A multi-row payload: the branch index, then one path per line (trimmed,
/// empty lines skipped); at least one path.
pub open spec fn transfer_multi(t: Seq<char>) -> Option<(usize, Seq<Seq<char>>)> {
    match split_once(t, '|') {
        Some((v, rest)) => match parse_usize(v) {
            Some(n) => {
                let ps = non_empty(trim_all(lines(rest)));
                if ps.len() > 0 { Some((n, ps)) } else { None }
            },
            None => None,
        },
        None => None,
    }
}

/// Decodes a single-row drag payload.
pub fn parse_entry_transfer(transfer: &str) -> (r: Option<(usize, String)>)
    ensures
        match r {
            Some((v, p)) => transfer_single(transfer@) == Some((v, p@)),
            None => transfer_single(transfer@) is None,
        },
{
    let t = chars_of(transfer);
    match split_once_exec(&t, '|') {
        Some((v, p)) => match parse_usize_exec(&v) {
            Some(n) => {
                let path = trim_exec(&p);
                if path.len() > 0 {
                    Some((n, string_of(&path)))
                } else {
                    None
                }
            },
            None => None,
        },
        None => None,
    }
}

/// Decodes a (possibly multi-row) drag payload.
pub fn parse_entry_transfer_multi(transfer: &str) -> (r: Option<(usize, Vec<String>)>)
    ensures
        match r {
            Some((v, ps)) => transfer_multi(transfer@) == Some((v, strs(ps@))),
            None => transfer_multi(transfer@) is None,
        },
{
    let t = chars_of(transfer);
    match split_once_exec(&t, '|') {
        Some((v, rest)) => match parse_usize_exec(&v) {
            Some(n) => {
                let ls = lines_exec(&rest);
                let trimmed = trim_each(&ls);
                let kept = non_empty_exec(trimmed);
                if kept.len() > 0 {
                    Some((n, to_strings(&kept)))
                } else {
                    None
                }
            },
            None => None,
        },
        None => None,
    }
}

/// The payload of a dragged group: the branch text, `'|'`, then the paths
/// one per line (the first right after the bar).
pub open spec fn group_transfer(visit: Seq<char>, paths: Seq<Seq<char>>) -> Seq<char> {
    visit + "|"@ + join(paths, "\n"@)
}

/// Encodes a dragged group.
pub fn group_transfer_text(visit: &str, paths: &[String]) -> (r: String)
    ensures
        r@ == group_transfer(visit@, strs(paths@)),
{
    let v = chars_of(visit);
    let mut bar: Vec<char> = Vec::new();
    bar.push('|');
    let parts = to_char_vecs(paths);
    let mut nl: Vec<char> = Vec::new();
    nl.push('\n');
    let body = join_exec(&parts, &nl);
    assert(bar@ == "|"@ && nl@ == "\n"@) by {
        reveal_strlit("|");
        reveal_strlit("\n");
    }
    string_of(&concat(&concat(&v, &bar), &body))
}

/// The action targets handed over by the content list: one path per line,
/// empty lines skipped (paths are taken verbatim).
pub fn menu_targets(text: &str) -> (r: Vec<String>)
    ensures
        strs(r@) == non_empty(lines(text@)),
{
    let t = chars_of(text);
    let ls = lines_exec(&t);
    let kept = non_empty_exec(ls);
    to_strings(&kept)
}

/// A path fit for one payload line: not empty, no line break, no whitespace
/// at either end.
pub open spec fn clean_path(p: Seq<char>) -> bool {
    &&& p.len() > 0
    &&& !p.contains('\n')
    &&& !is_ws(p[0])
    &&& !is_ws(p.last())
}

// ───────────────────────── payload round trip ─────────────────────────

proof fn lemma_digit_value(d: nat)
    requires
        d < 10,
    ensures
        digit_value(digit(d)) == d,
        is_digit(digit(d)),
        digit(d) != '+',
        digit(d) != '|',
{
}

/// Decimal text reads back as its value.
pub proof fn lemma_dec_value(n: nat)
    ensures
        digits_value(dec(n)) == n,
        all_digits(dec(n)),
    decreases n,
{
    lemma_dec_shape(n);
    if n < 10 {
        lemma_digit_value(n);
        assert(dec(n).drop_last() =~= Seq::<char>::empty());
        assert(digits_value(dec(n)) == digits_value(dec(n).drop_last()) * 10 + digit_value(dec(n).last()));
    } else {
        lemma_dec_value(n / 10);
        lemma_digit_value(n % 10);
        assert(dec(n).drop_last() =~= dec(n / 10));
        assert(digits_value(dec(n)) == digits_value(dec(n).drop_last()) * 10 + digit_value(dec(n).last()));
        assert(n == (n / 10) * 10 + n % 10);
    }
}

/// `usize::from_str` reads back the decimal text of a `usize`.
pub proof fn lemma_parse_dec(n: usize)
    ensures
        parse_usize(dec(n as nat)) == Some(n),
{
    lemma_dec_value(n as nat);
    lemma_dec_shape(n as nat);
    let d = dec(n as nat);
    assert(is_digit(d[0]));
    assert(unsigned_body(d) == d);
}

/// Splitting text without separators gives the text itself.
proof fn lemma_split_plain(s: Seq<char>, seps: Seq<char>)
    requires
        forall|i: int| 0 <= i < s.len() ==> !seps.contains(#[trigger] s[i]),
    ensures
        split_by(s, seps) == seq![s],
    decreases s.len(),
{
    if s.len() > 0 {
        lemma_split_plain(s.drop_last(), seps);
        assert(s.drop_last().push(s.last()) =~= s);
        assert(seq![s.drop_last()].update(0, s.drop_last().push(s.last())) =~= seq![s]);
    } else {
        assert(s =~= Seq::<char>::empty());
        assert(seq![Seq::<char>::empty()] =~= seq![s]);
    }
}

/// A separator followed by separator-free text ends a piece and starts the
/// last one.
pub proof fn lemma_split_append(a: Seq<char>, c: char, b: Seq<char>, seps: Seq<char>)
    requires
        seps.contains(c),
        forall|i: int| 0 <= i < b.len() ==> !seps.contains(#[trigger] b[i]),
    ensures
        split_by(a + seq![c] + b, seps) == split_by(a, seps).push(b),
    decreases b.len(),
{
    if b.len() == 0 {
        assert(a + seq![c] + b =~= a.push(c));
        assert((a + seq![c] + b).drop_last() =~= a);
        assert(b =~= Seq::<char>::empty());
        assert(split_by(a, seps).push(Seq::<char>::empty()) =~= split_by(a, seps).push(b));
    } else {
        let b0 = b.drop_last();
        lemma_split_append(a, c, b0, seps);
        assert((a + seq![c] + b).drop_last() =~= a + seq![c] + b0);
        assert((a + seq![c] + b).last() == b.last());
        let r = split_by(a + seq![c] + b0, seps);
        assert(r.update(r.len() - 1, r.last().push(b.last())) =~= split_by(a, seps).push(b0.push(b.last())));
        assert(b0.push(b.last()) =~= b);
    }
}

/// Joining line-free pieces with `'\n'` and splitting at `'\n'` gives the
/// pieces back.
pub proof fn lemma_split_join(ps: Seq<Seq<char>>)
    requires
        ps.len() > 0,
        forall|i: int| 0 <= i < ps.len() ==> !(#[trigger] ps[i]).contains('\n'),
    ensures
        split_by(join(ps, "\n"@), seq!['\n']) == ps,
    decreases ps.len(),
{
    reveal_strlit("\n");
    let nl = seq!['\n'];
    let last = ps.last();
    assert forall|i: int| 0 <= i < last.len() implies !nl.contains(#[trigger] last[i]) by {
        if last[i] == '\n' {
            assert(ps[ps.len() - 1].contains('\n'));
        }
    }
    if ps.len() == 1 {
        lemma_split_plain(ps[0], nl);
        assert(seq![ps[0]] =~= ps);
    } else {
        lemma_split_join(ps.drop_last());
        assert("\n"@ =~= seq!['\n']);
        assert(join(ps, "\n"@) =~= join(ps.drop_last(), "\n"@) + seq!['\n'] + last);
        assert(nl[0] == '\n');
        lemma_split_append(join(ps.drop_last(), "\n"@), '\n', last, nl);
        assert(ps.drop_last().push(last) =~= ps);
    }
}

/// A clean path is its own trimmed, `'\r'`-free form.
pub proof fn lemma_clean_trimmed(p: Seq<char>)
    requires
        clean_path(p),
    ensures
        trim(p) == p,
        strip_cr(p) == p,
{
    assert(trim_start(p) == p);
    assert(trim_end(p) == p);
    assert(p.last() != '\r');
}

/// Clean paths survive trimming and the removal of empty pieces.
pub proof fn lemma_all_kept(ps: Seq<Seq<char>>)
    requires
        forall|i: int| 0 <= i < ps.len() ==> clean_path(#[trigger] ps[i]),
    ensures
        non_empty(trim_all(ps)) == ps,
    decreases ps.len(),
{
    assert forall|i: int| 0 <= i < ps.len() implies #[trigger] trim_all(ps)[i] == ps[i] by {
        lemma_clean_trimmed(ps[i]);
    }
    assert(trim_all(ps) =~= ps);
    lemma_non_empty_keeps(ps);
}

proof fn lemma_non_empty_keeps(ps: Seq<Seq<char>>)
    requires
        forall|i: int| 0 <= i < ps.len() ==> (#[trigger] ps[i]).len() > 0,
    ensures
        non_empty(ps) == ps,
    decreases ps.len(),
{
    if ps.len() > 0 {
        lemma_non_empty_keeps(ps.drop_last());
        assert(ps.drop_last().push(ps.last()) =~= ps);
    }
}

/// Drag payload round trip: decoding the payload of a group (branch index
/// written in decimal, clean paths) gives back the branch index and the
/// paths in order.
pub proof fn law_transfer_round_trip(visit: usize, paths: Seq<Seq<char>>)
    requires
        paths.len() > 0,
        forall|i: int| 0 <= i < paths.len() ==> clean_path(#[trigger] paths[i]),
    ensures
        transfer_multi(group_transfer(dec(visit as nat), paths)) == Some((visit, paths)),
{
    reveal_strlit("|");
    let v = dec(visit as nat);
    let body = join(paths, "\n"@);
    let t = group_transfer(v, paths);
    lemma_dec_shape(visit as nat);
    lemma_dec_value(visit as nat);
    assert(t =~= v + seq!['|'] + body);
    assert forall|i: int| 0 <= i < v.len() implies t[i] != '|' by {
        assert(t[i] == v[i]);
        assert(is_digit(v[i]));
    }
    assert(t[v.len() as int] == '|');
    let fi = first_index(t, '|');
    assert(fi == Some(v.len() as int));
    assert(t.take(v.len() as int) =~= v);
    assert(t.skip(v.len() as int + 1) =~= body);
    assert(split_once(t, '|') == Some((v, body)));
    lemma_parse_dec(visit);
    assert forall|i: int| 0 <= i < paths.len() implies !(#[trigger] paths[i]).contains('\n') by {
        assert(clean_path(paths[i]));
    }
    lemma_split_join(paths);
    let p = split_by(body, seq!['\n']);
    assert(p == paths);
    assert(Seq::new((p.len() - 1) as nat, |i: int| strip_cr(p[i])) =~= paths.drop_last()) by {
        assert forall|i: int| 0 <= i < paths.len() - 1 implies strip_cr(p[i]) == paths[i] by {
            lemma_clean_trimmed(paths[i]);
        }
    }
    assert(p.last().len() > 0) by {
        assert(clean_path(paths[paths.len() - 1]));
    }
    assert(lines(body) =~= paths);
    lemma_all_kept(paths);
}

// ───────────────────────── paths ─────────────────────────

/// Text of a directory given by its components (absolute, `/`-separated).
pub open spec fn path_text(comps: Seq<Seq<char>>) -> Seq<char> {
    "/"@ + join(comps, "/"@)
}

/// Components of a relative `/`-separated path (empty pieces dropped).
pub open spec fn rel_components(rel: Seq<char>) -> Seq<Seq<char>> {
    non_empty(split_by(rel, seq!['/']))
}

/// `dir` is a leading part of `target` (component-wise).
pub open spec fn dir_prefix(dir: Seq<Seq<char>>, target: Seq<Seq<char>>) -> bool {
    dir.len() <= target.len() && target.take(dir.len() as int) == dir
}

/// Branch-relative path of `name` placed in `target_dir` of the branch at
/// `visit_dir`: `rel/name`, or just `name` at the branch root or outside it.
pub open spec fn child_path_of(visit_dir: Seq<Seq<char>>, target_dir: Seq<Seq<char>>, name: Seq<char>) -> Seq<char> {
    if dir_prefix(visit_dir, target_dir) && target_dir.len() > visit_dir.len() {
        join(target_dir.skip(visit_dir.len() as int), "/"@) + "/"@ + name
    } else {
        name
    }
}

/// Components as character sequences.
pub open spec fn comp_views(v: Seq<String>) -> Seq<Seq<char>> {
    Seq::new(v.len(), |i: int| v[i]@)
}

/// Whether `dir` is a leading part of `target`.
pub fn dir_prefix_exec(dir: &Vec<String>, target: &Vec<String>) -> (r: bool)
    ensures
        r == dir_prefix(comp_views(dir@), comp_views(target@)),
{
    if dir.len() > target.len() {
        return false;
    }
    let mut i: usize = 0;
    while i < dir.len()
        invariant
            dir.len() <= target.len(),
            i <= dir.len(),
            forall|j: int| 0 <= j < i ==> dir@[j]@ == target@[j]@,
        decreases dir.len() - i,
    {
        if dir[i] != target[i] {
            assert(comp_views(target@).take(dir.len() as int)[i as int] != comp_views(dir@)[i as int]);
            return false;
        }
        i += 1;
    }
    assert(comp_views(target@).take(dir.len() as int) =~= comp_views(dir@));
    true
}

/// Display path of an entry landed in `target_dir` (see `child_path_of`).
pub fn in_dir_child_path(visit_dir: &Vec<String>, target_dir: &Vec<String>, name: &str) -> (r: String)
    ensures
        r@ == child_path_of(comp_views(visit_dir@), comp_views(target_dir@), name@),
{
    let n = chars_of(name);
    if dir_prefix_exec(visit_dir, target_dir) && target_dir.len() > visit_dir.len() {
        let mut rest: Vec<String> = Vec::new();
        let mut i = visit_dir.len();
        while i < target_dir.len()
            invariant
                visit_dir.len() <= i <= target_dir.len(),
                strs(rest@) == comp_views(target_dir@).subrange(visit_dir.len() as int, i as int),
            decreases target_dir.len() - i,
        {
            let ghost before = strs(rest@);
            rest.push(target_dir[i].clone());
            assert(strs(rest@) =~= before.push(comp_views(target_dir@)[i as int]));
            i += 1;
            assert(strs(rest@) =~= comp_views(target_dir@).subrange(visit_dir.len() as int, i as int));
        }
        assert(comp_views(target_dir@).skip(visit_dir.len() as int) =~= comp_views(target_dir@).subrange(visit_dir.len() as int, target_dir.len() as int));
        let parts = to_char_vecs(&rest);
        let mut slash: Vec<char> = Vec::new();
        slash.push('/');
        assert(slash@ == "/"@) by {
            reveal_strlit("/");
        }
        let joined = join_exec(&parts, &slash);
        string_of(&concat(&concat(&joined, &slash), &n))
    } else {
        string_of(&n)
    }
}

/// Text of a directory path.
pub fn path_text_exec(comps: &Vec<String>) -> (r: String)
    ensures
        r@ == path_text(comp_views(comps@)),
{
    let parts = to_char_vecs(comps);
    assert(views(parts@) == comp_views(comps@));
    let mut slash: Vec<char> = Vec::new();
    slash.push('/');
    assert(slash@ == "/"@) by {
        reveal_strlit("/");
    }
    let joined = join_exec(&parts, &slash);
    string_of(&concat(&slash, &joined))
}

/// Components of a relative path.
pub fn rel_components_exec(rel: &str) -> (r: Vec<String>)
    ensures
        comp_views(r@) == rel_components(rel@),
{
    let t = chars_of(rel);
    let mut sl: Vec<char> = Vec::new();
    sl.push('/');
    assert(sl@ == seq!['/']);
    let pieces = split_on(&t, &sl);
    let kept = non_empty_exec(pieces);
    let r = to_strings(&kept);
    assert(comp_views(r@) =~= strs(r@));
    r
}

/// Single-row payload round trip: the branch index written in decimal, a
/// bar, and a trimmed non-empty path decode back to the index and the path.
pub proof fn law_single_transfer_round_trip(visit: usize, path: Seq<char>)
    requires
        path.len() > 0,
        trim(path) == path,
    ensures
        transfer_single(dec(visit as nat) + "|"@ + path) == Some((visit, path)),
{
    reveal_strlit("|");
    let v = dec(visit as nat);
    let t = v + "|"@ + path;
    lemma_dec_shape(visit as nat);
    lemma_dec_value(visit as nat);
    assert(t =~= v + seq!['|'] + path);
    assert forall|i: int| 0 <= i < v.len() implies t[i] != '|' by {
        assert(t[i] == v[i]);
        assert(is_digit(v[i]));
    }
    assert(t[v.len() as int] == '|');
    assert(first_index(t, '|') == Some(v.len() as int));
    assert(t.take(v.len() as int) =~= v);
    assert(t.skip(v.len() as int + 1) =~= path);
    assert(split_once(t, '|') == Some((v, path)));
    lemma_parse_dec(visit);
}

/// A payload whose paths fit on one line decodes, as a multi-row payload,
/// to the one path the single-row decoder reads from it.
pub proof fn law_one_line_transfer_is_single(t: Seq<char>)
    requires
        split_once(t, '|') matches Some((v, rest)) && !rest.contains('\n'),
    ensures
        transfer_multi(t) == match transfer_single(t) {
            Some((n, p)) => Some((n, seq![p])),
            None => None::<(usize, Seq<Seq<char>>)>,
        },
{
    let (v, rest) = split_once(t, '|').unwrap();
    assert forall|i: int| 0 <= i < rest.len() implies !seq!['\n'].contains(#[trigger] rest[i]) by {
        if seq!['\n'].contains(rest[i]) {
            assert(rest.contains('\n'));
        }
    }
    lemma_split_plain(rest, seq!['\n']);
    let ls = lines(rest);
    if rest.len() > 0 {
        assert(ls =~= seq![rest]);
    } else {
        assert(ls =~= Seq::<Seq<char>>::empty());
        assert(trim(rest) =~= Seq::<char>::empty()) by {
            lemma_trim_sub(rest);
        }
    }
    let ta = trim_all(ls);
    if rest.len() > 0 {
        assert(ta =~= seq![trim(rest)]);
        if trim(rest).len() > 0 {
            assert(non_empty(ta) =~= seq![trim(rest)]) by {
                assert(ta.drop_last() =~= Seq::<Seq<char>>::empty());
                assert(non_empty(ta.drop_last()) =~= Seq::<Seq<char>>::empty());
                assert(ta.last() == trim(rest));
            }
        } else {
            assert(non_empty(ta) =~= Seq::<Seq<char>>::empty()) by {
                assert(ta.drop_last() =~= Seq::<Seq<char>>::empty());
                assert(non_empty(ta.drop_last()) =~= Seq::<Seq<char>>::empty());
                assert(ta.last() == trim(rest));
            }
        }
    } else {
        assert(ta =~= Seq::<Seq<char>>::empty());
    }
}

} // verus!
