//! Small text rules of the editor: display names, tag input, size labels,
//! help links and Finder-style copy names.
use vstd::prelude::*;
use vstd::set_lib::{lemma_int_range, lemma_len_subset, lemma_map_size, set_int_range};
use crate::chars::{
    rsplit_once, rsplit_once_exec, lemma_dec_shape, lemma_dec_injective,
    after_last, after_last_exec, chars_of, dec, dec_exec, digit, digit_exec, concat, join, join_exec, subvec, trim_end_matches,
    trim_end_matches_exec, eq_ignore_ascii_case, eq_ignore_ascii_case_exec, is_ws,
    lemma_split_by_nonempty, non_empty, non_empty_exec, seq_eq, split_by, split_on, string_of, trim,
    trim_all, trim_each, trim_end, trim_start, views,
};

verus! {

/// The character sequences of a list of strings.
pub open spec fn strs(v: Seq<String>) -> Seq<Seq<char>> {
    Seq::new(v.len(), |i: int| v[i]@)
}

/// Whether some string of `v` equals `s`.
pub open spec fn has_str(v: Seq<String>, s: Seq<char>) -> bool {
    exists|i: int| 0 <= i < v.len() && v[i]@ == s
}

/// Strings of the given character vectors.
pub fn to_strings(v: &Vec<Vec<char>>) -> (r: Vec<String>)
    ensures
        strs(r@) == views(v@),
{
    let mut out: Vec<String> = Vec::new();
    let mut i: usize = 0;
    while i < v.len()
        invariant
            i <= v.len(),
            strs(out@) =~= views(v@).take(i as int),
        decreases v.len() - i,
    {
        let s = string_of(v[i].as_slice());
        assert(s@ == views(v@)[i as int]);
        let ghost before = strs(out@);
        out.push(s);
        assert(strs(out@) =~= before.push(views(v@)[i as int]));
        i += 1;
        assert(strs(out@) =~= views(v@).take(i as int));
    }
    assert(views(v@).take(v.len() as int) =~= views(v@));
    out
}

/// Character vectors of the given strings.
pub fn to_char_vecs(v: &[String]) -> (r: Vec<Vec<char>>)
    ensures
        views(r@) == strs(v@),
{
    let mut out: Vec<Vec<char>> = Vec::new();
    let mut i: usize = 0;
    while i < v.len()
        invariant
            i <= v.len(),
            views(out@) =~= strs(v@).take(i as int),
        decreases v.len() - i,
    {
        let s = chars_of(v[i].as_str());
        assert(s@ == strs(v@)[i as int]);
        let ghost before = views(out@);
        out.push(s);
        assert(views(out@) =~= before.push(strs(v@)[i as int]));
        i += 1;
        assert(views(out@) =~= strs(v@).take(i as int));
    }
    assert(strs(v@).take(v.len() as int) =~= strs(v@));
    out
}

/// Whether `s` is among `v`.
pub fn contains_str(v: &[String], s: &[char]) -> (r: bool)
    ensures
        r == has_str(v@, s@),
{
    let mut i: usize = 0;
    while i < v.len()
        invariant
            i <= v.len(),
            forall|j: int| 0 <= j < i ==> v@[j]@ != s@,
        decreases v.len() - i,
    {
        let c = chars_of(v[i].as_str());
        if seq_eq(&c, s) {
            return true;
        }
        i += 1;
    }
    false
}

// ───────────────────────── names ─────────────────────────

/// File name of a slash-separated path: the text after the last `'/'`.
pub fn basename(path: &str) -> (r: String)
    ensures
        r@ == after_last(path@, '/'),
{
    let v = chars_of(path);
    string_of(&after_last_exec(&v, '/'))
}

/// No character at or above U+2E80 (the start of the CJK radicals block):
/// such text carries no full-height glyphs (CJK, kana, hangul, full-width
/// forms, emoji).
pub open spec fn latin_only(s: Seq<char>) -> bool {
    forall|i: int| 0 <= i < s.len() ==> (s[i] as u32) < 0x2E80
}

/// Whether the text is free of full-height glyphs.
pub fn is_latin_only(s: &str) -> (r: bool)
    ensures
        r == latin_only(s@),
{
    let v = chars_of(s);
    let mut i: usize = 0;
    while i < v.len()
        invariant
            v@ == s@,
            i <= v.len(),
            forall|j: int| 0 <= j < i ==> (v@[j] as u32) < 0x2E80,
        decreases v.len() - i,
    {
        if (v[i] as u32) >= 0x2E80 {
            return false;
        }
        i += 1;
    }
    true
}

/// Finder and system clutter: hidden names (`.DS_Store`, `._*`), `__MACOSX`,
/// and `Thumbs.db` in any ASCII case.
pub open spec fn noise_name(name: Seq<char>) -> bool {
    ||| (name.len() > 0 && name[0] == '.')
    ||| name == "__MACOSX"@
    ||| eq_ignore_ascii_case(name, "Thumbs.db"@)
}

/// Whether a directory listing entry is system clutter to be hidden.
pub fn is_noise_name(name: &str) -> (r: bool)
    ensures
        r == noise_name(name@),
{
    let v = chars_of(name);
    if v.len() > 0 && v[0] == '.' {
        return true;
    }
    let mac = chars_of("__MACOSX");
    if seq_eq(&v, &mac) {
        return true;
    }
    let thumbs = chars_of("Thumbs.db");
    eq_ignore_ascii_case_exec(&v, &thumbs)
}

// ───────────────────────── tags ─────────────────────────

/// Separators of the tag field: comma, full-width comma, and every
/// whitespace character (`char::is_whitespace`).
pub open spec fn tag_seps() -> Seq<char> {
    seq![
        ',', '，', '\u{9}', '\u{A}', '\u{B}', '\u{C}', '\u{D}', ' ', '\u{85}', '\u{A0}', '\u{1680}',
        '\u{2000}', '\u{2001}', '\u{2002}', '\u{2003}', '\u{2004}', '\u{2005}', '\u{2006}',
        '\u{2007}', '\u{2008}', '\u{2009}', '\u{200A}', '\u{2028}', '\u{2029}', '\u{202F}',
        '\u{205F}', '\u{3000}',
    ]
}

/// The tag separators are exactly the two commas and the whitespace.
pub proof fn lemma_tag_seps(c: char)
    ensures
        tag_seps().contains(c) <==> (c == ',' || c == '，' || is_ws(c)),
{
    let t = tag_seps();
    if c == ',' || c == '，' || is_ws(c) {
        let u = c as u32;
        if c == ',' { assert(t[0] == c); }
        else if c == '，' { assert(t[1] == c); }
        else if u == 0x9 { assert(t[2] == c); }
        else if u == 0xA { assert(t[3] == c); }
        else if u == 0xB { assert(t[4] == c); }
        else if u == 0xC { assert(t[5] == c); }
        else if u == 0xD { assert(t[6] == c); }
        else if u == 0x20 { assert(t[7] == c); }
        else if u == 0x85 { assert(t[8] == c); }
        else if u == 0xA0 { assert(t[9] == c); }
        else if u == 0x1680 { assert(t[10] == c); }
        else if 0x2000 <= u <= 0x200A { assert(t[(11 + (u - 0x2000)) as int] == c); }
        else if u == 0x2028 { assert(t[22] == c); }
        else if u == 0x2029 { assert(t[23] == c); }
        else if u == 0x202F { assert(t[24] == c); }
        else if u == 0x205F { assert(t[25] == c); }
        else { assert(t[26] == c); }
    }
}

/// Tags typed into the tag field: split at the separators, trimmed, empty
/// items dropped.
pub open spec fn tags_of(input: Seq<char>) -> Seq<Seq<char>> {
    non_empty(trim_all(split_by(input, tag_seps())))
}

/// Parses the tag field.
pub fn parse_tags(input: &str) -> (r: Vec<String>)
    ensures
        strs(r@) == tags_of(input@),
{
    let v = chars_of(input);
    let seps = [
        ',', '，', '\u{9}', '\u{A}', '\u{B}', '\u{C}', '\u{D}', ' ', '\u{85}', '\u{A0}', '\u{1680}',
        '\u{2000}', '\u{2001}', '\u{2002}', '\u{2003}', '\u{2004}', '\u{2005}', '\u{2006}',
        '\u{2007}', '\u{2008}', '\u{2009}', '\u{200A}', '\u{2028}', '\u{2029}', '\u{202F}',
        '\u{205F}', '\u{3000}',
    ];
    assert(seps@ =~= tag_seps());
    let pieces = split_on(&v, &seps);
    let trimmed = trim_each(&pieces);
    let kept = non_empty_exec(trimmed);
    to_strings(&kept)
}

/// Every tag is non-empty, carries no separator and no surrounding whitespace.
pub proof fn law_tags_clean(input: Seq<char>, k: int)
    requires
        0 <= k < tags_of(input).len(),
    ensures
        tags_of(input)[k].len() > 0,
        trim(tags_of(input)[k]) == tags_of(input)[k],
        forall|j: int| 0 <= j < tags_of(input)[k].len() ==> !tag_seps().contains(
            #[trigger] tags_of(input)[k][j],
        ),
{
    let pieces = split_by(input, tag_seps());
    lemma_split_pieces_free(input, tag_seps());
    lemma_non_empty_from(trim_all(pieces), k);
    let i = choose|i: int|
        0 <= i < pieces.len() && trim_all(pieces)[i] == non_empty(trim_all(pieces))[k];
    lemma_trim_sub(pieces[i]);
    lemma_trim_idempotent(pieces[i]);
    let lo = choose|lo: int, hi: int| 0 <= lo <= hi <= pieces[i].len() && trim(pieces[i]) == pieces[i].subrange(lo, hi);
    let (a, b) = lo;
    let t = tags_of(input)[k];
    assert(t == trim(pieces[i]));
    assert forall|j: int| 0 <= j < t.len() implies !tag_seps().contains(#[trigger] t[j]) by {
        assert(t[j] == pieces[i][a + j]);
    }
}

/// Pieces produced by splitting contain no separator.
pub proof fn lemma_split_pieces_free(s: Seq<char>, seps: Seq<char>)
    ensures
        forall|i: int, j: int|
            0 <= i < split_by(s, seps).len() && 0 <= j < split_by(s, seps)[i].len() ==> !seps.contains(
                #[trigger] split_by(s, seps)[i][j],
            ),
    decreases s.len(),
{
    if s.len() > 0 {
        lemma_split_pieces_free(s.drop_last(), seps);
        lemma_split_by_nonempty(s.drop_last(), seps);
        let rest = split_by(s.drop_last(), seps);
        if !seps.contains(s.last()) {
            assert forall|i: int, j: int|
                0 <= i < split_by(s, seps).len() && 0 <= j < split_by(s, seps)[i].len() implies !seps.contains(
                split_by(s, seps)[i][j],
            ) by {
                if i == rest.len() - 1 && j == rest.last().len() {
                } else if i == rest.len() - 1 {
                    assert(split_by(s, seps)[i][j] == rest[i][j]);
                }
            }
        }
    }
}

/// Each kept piece comes from some piece of the input list.
pub proof fn lemma_non_empty_from(ps: Seq<Seq<char>>, k: int)
    requires
        0 <= k < non_empty(ps).len(),
    ensures
        exists|i: int| 0 <= i < ps.len() && ps[i] == non_empty(ps)[k],
        non_empty(ps)[k].len() > 0,
    decreases ps.len(),
{
    let rest = non_empty(ps.drop_last());
    if ps.last().len() > 0 && k == rest.len() {
        assert(ps[ps.len() - 1] == non_empty(ps)[k]);
    } else {
        lemma_non_empty_from(ps.drop_last(), k);
        let i = choose|i: int| 0 <= i < ps.drop_last().len() && ps.drop_last()[i] == rest[k];
        assert(ps[i] == non_empty(ps)[k]);
    }
}

/// The trimmed text is a contiguous part of the original.
pub proof fn lemma_trim_sub(s: Seq<char>)
    ensures
        exists|lo: int, hi: int| 0 <= lo <= hi <= s.len() && trim(s) == s.subrange(lo, hi),
{
    lemma_trim_start_sub(s);
    let lo = choose|lo: int| 0 <= lo <= s.len() && trim_start(s) == s.skip(lo);
    lemma_trim_end_sub(trim_start(s));
    let m = choose|m: int| 0 <= m <= trim_start(s).len() && trim_end(trim_start(s)) == trim_start(s).take(m);
    assert(trim(s) == s.subrange(lo, lo + m));
}

proof fn lemma_trim_start_sub(s: Seq<char>)
    ensures
        exists|lo: int| 0 <= lo <= s.len() && trim_start(s) == s.skip(lo),
    decreases s.len(),
{
    if s.len() > 0 && is_ws(s[0]) {
        lemma_trim_start_sub(s.drop_first());
        let lo = choose|lo: int| 0 <= lo <= s.drop_first().len() && trim_start(s.drop_first()) == s.drop_first().skip(lo);
        assert(s.drop_first().skip(lo) == s.skip(lo + 1));
    } else {
        assert(s.skip(0) == s);
    }
}

proof fn lemma_trim_end_sub(s: Seq<char>)
    ensures
        exists|m: int| 0 <= m <= s.len() && trim_end(s) == s.take(m),
    decreases s.len(),
{
    if s.len() > 0 && is_ws(s.last()) {
        lemma_trim_end_sub(s.drop_last());
        let m = choose|m: int| 0 <= m <= s.drop_last().len() && trim_end(s.drop_last()) == s.drop_last().take(m);
        assert(s.drop_last().take(m) == s.take(m));
    } else {
        assert(s.take(s.len() as int) == s);
    }
}

proof fn lemma_trim_start_shape(s: Seq<char>)
    ensures
        trim_start(s).len() > 0 ==> !is_ws(trim_start(s)[0]),
    decreases s.len(),
{
    if s.len() > 0 && is_ws(s[0]) {
        lemma_trim_start_shape(s.drop_first());
    }
}

proof fn lemma_trim_end_shape(s: Seq<char>)
    ensures
        trim_end(s).len() > 0 ==> !is_ws(trim_end(s).last()),
    decreases s.len(),
{
    if s.len() > 0 && is_ws(s.last()) {
        lemma_trim_end_shape(s.drop_last());
    }
}

proof fn lemma_trim_end_keeps_first(s: Seq<char>)
    ensures
        trim_end(s).len() > 0 ==> trim_end(s)[0] == s[0],
    decreases s.len(),
{
    if s.len() > 0 && is_ws(s.last()) {
        lemma_trim_end_keeps_first(s.drop_last());
    }
}

/// Trimmed text neither starts nor ends with whitespace.
pub proof fn lemma_trim_shape(s: Seq<char>)
    ensures
        trim(s).len() > 0 ==> !is_ws(trim(s)[0]) && !is_ws(trim(s).last()),
{
    lemma_trim_start_shape(s);
    lemma_trim_end_shape(trim_start(s));
    lemma_trim_end_keeps_first(trim_start(s));
}

/// Trimming twice changes nothing.
pub proof fn lemma_trim_idempotent(s: Seq<char>)
    ensures
        trim(trim(s)) == trim(s),
{
    let t = trim(s);
    lemma_trim_start_shape(s);
    lemma_trim_end_shape(trim_start(s));
    lemma_trim_end_keeps_first(trim_start(s));
    if t.len() > 0 {
        assert(!is_ws(t[0]));
        assert(trim_start(t) == t);
        assert(!is_ws(t.last()));
        assert(trim_end(t) == t);
    } else {
        assert(trim_start(t) == t);
        assert(trim_end(t) == t);
    }
}


// ───────────────────────── status-bar name lists ─────────────────────────

/// The name slot of a status message: up to three names joined by `、`,
/// with `…` appended when more were given.
pub open spec fn name_list_of(names: Seq<Seq<char>>) -> Seq<char> {
    if names.len() <= 3 {
        join(names, "、"@)
    } else {
        join(names.take(3), "、"@) + "…"@
    }
}

/// Renders the name slot of a status message.
pub fn name_list(names: &[String]) -> (r: String)
    ensures
        r@ == name_list_of(strs(names@)),
{
    let all = to_char_vecs(names);
    let sep = chars_of("、");
    if all.len() <= 3 {
        string_of(&join_exec(&all, &sep))
    } else {
        let mut first: Vec<Vec<char>> = Vec::new();
        let mut i: usize = 0;
        while i < 3
            invariant
                i <= 3 < all.len(),
                views(first@) =~= views(all@).take(i as int),
            decreases 3 - i,
        {
            let c = subvec(&all[i], 0, all[i].len());
            assert(all@[i as int]@.subrange(0, all@[i as int]@.len() as int) == all@[i as int]@);
            let ghost before = views(first@);
            first.push(c);
            assert(views(first@) =~= before.push(views(all@)[i as int]));
            i += 1;
        }
        let joined = join_exec(&first, &sep);
        let dots = chars_of("…");
        string_of(&concat(&joined, &dots))
    }
}

// ───────────────────────── help links ─────────────────────────

/// Stem of the file name of the bundle format's reference document.
pub open spec fn format_doc_stem() -> Seq<char> {
    "SPEC"@
}

/// File name of the bundle format's reference document in the repository:
/// its stem with the Markdown extension.
pub open spec fn format_doc_name() -> Seq<char> {
    format_doc_stem() + ".md"@
}

/// The online link `which` of the help menu for repository `repo`:
/// 0 = format reference, 1 = repository home, 3 = editor guide,
/// anything else = issue tracker.
pub open spec fn doc_url_of(repo: Seq<char>, which: i32) -> Seq<char> {
    let base = trim_end_matches(repo, "/"@);
    if which == 0 {
        base + "/blob/main/"@ + format_doc_name()
    } else if which == 1 {
        base
    } else if which == 3 {
        base + "/blob/main/str-gui/README.md"@
    } else {
        base + "/issues"@
    }
}

/// Builds a help-menu link from the repository address.
pub fn doc_url(repo: &str, which: i32) -> (r: String)
    ensures
        r@ == doc_url_of(repo@, which),
{
    let v = chars_of(repo);
    let slash = chars_of("/");
    let base = trim_end_matches_exec(&v, &slash);
    if which == 0 {
        let stem = chars_of("SPEC");
        let doc = concat(&stem, &chars_of(".md"));
        string_of(&concat(&concat(&base, &chars_of("/blob/main/")), &doc))
    } else if which == 1 {
        string_of(&base)
    } else if which == 3 {
        string_of(&concat(&base, &chars_of("/blob/main/str-gui/README.md")))
    } else {
        string_of(&concat(&base, &chars_of("/issues")))
    }
}


// ───────────────────────── size labels ─────────────────────────

/// Distance between neighbouring `f64` values in the binade holding `n`
/// (for `n < 2^63`): every integer up to 2^53 is exact, above it the spacing
/// doubles with each binade.
pub open spec fn f64_spacing(n: nat) -> nat {
    if n < 0x20_0000_0000_0000 { 1 }
    else if n < 0x40_0000_0000_0000 { 2 }
    else if n < 0x80_0000_0000_0000 { 4 }
    else if n < 0x100_0000_0000_0000 { 8 }
    else if n < 0x200_0000_0000_0000 { 16 }
    else if n < 0x400_0000_0000_0000 { 32 }
    else if n < 0x800_0000_0000_0000 { 64 }
    else if n < 0x1000_0000_0000_0000 { 128 }
    else if n < 0x2000_0000_0000_0000 { 256 }
    else if n < 0x4000_0000_0000_0000 { 512 }
    else { 1024 }
}

/// `t / d` rounded to the nearest integer, ties to the even one.
pub open spec fn div_round_even(t: nat, d: nat) -> nat {
    let q = t / d;
    let r = t % d;
    if 2 * r > d || (2 * r == d && q % 2 == 1) {
        q + 1
    } else {
        q
    }
}

/// `n as f64` for `0 <= n < 2^63`: the nearest multiple of the spacing,
/// ties to the even multiple.
pub open spec fn f64_round(n: nat) -> nat {
    div_round_even(n, f64_spacing(n)) * f64_spacing(n)
}

/// `{:.1}` of the exact value `v / d`: tenths rounded half to even.
pub open spec fn one_decimal(v: nat, d: nat) -> Seq<char> {
    let t = div_round_even(v * 10, d);
    dec(t / 10) + "."@ + seq![digit(t % 10)]
}

/// Decimal text of a signed integer.
pub open spec fn dec_int(n: int) -> Seq<char> {
    if n < 0 {
        "-"@ + dec((-n) as nat)
    } else {
        dec(n as nat)
    }
}

/// The size column: a dash when unknown, bytes below 1 KiB, KiB below 1 MiB,
/// otherwise MiB — the latter two with one decimal as `{:.1}` prints the
/// `f64` quotient.
pub open spec fn size_label(v: Option<i64>) -> Seq<char> {
    match v {
        None => "—"@,
        Some(n) => if n < 1024 {
            dec_int(n as int) + " B"@
        } else if n < 1048576 {
            one_decimal(n as nat, 1024) + " KB"@
        } else {
            one_decimal(f64_round(n as nat), 1048576) + " MB"@
        },
    }
}

fn div_round_even_exec(t: u128, d: u128) -> (r: u128)
    requires
        0 < d <= 0x1_0000_0000,
        t < 0x1_0000_0000_0000_0000_0000,
    ensures
        r == div_round_even(t as nat, d as nat),
{
    let q = t / d;
    let rem = t % d;
    if 2 * rem > d || (2 * rem == d && q % 2 == 1) {
        q + 1
    } else {
        q
    }
}

/// 2^63 is a multiple of each spacing.
proof fn lemma_power_of_two_divides_top(u: int)
    requires
        u == 1 || u == 2 || u == 4 || u == 8 || u == 16 || u == 32 || u == 64 || u == 128
            || u == 256 || u == 512 || u == 1024,
    ensures
        (0x8000_0000_0000_0000int / u) * u == 0x8000_0000_0000_0000int,
{
    if u == 1 {
    } else if u == 2 {
        assert(0x4000_0000_0000_0000int * 2 == 0x8000_0000_0000_0000int);
    } else if u == 4 {
        assert(0x2000_0000_0000_0000int * 4 == 0x8000_0000_0000_0000int);
    } else if u == 8 {
        assert(0x1000_0000_0000_0000int * 8 == 0x8000_0000_0000_0000int);
    } else if u == 16 {
        assert(0x800_0000_0000_0000int * 16 == 0x8000_0000_0000_0000int);
    } else if u == 32 {
        assert(0x400_0000_0000_0000int * 32 == 0x8000_0000_0000_0000int);
    } else if u == 64 {
        assert(0x200_0000_0000_0000int * 64 == 0x8000_0000_0000_0000int);
    } else if u == 128 {
        assert(0x100_0000_0000_0000int * 128 == 0x8000_0000_0000_0000int);
    } else if u == 256 {
        assert(0x80_0000_0000_0000int * 256 == 0x8000_0000_0000_0000int);
    } else if u == 512 {
        assert(0x40_0000_0000_0000int * 512 == 0x8000_0000_0000_0000int);
    } else {
        assert(0x20_0000_0000_0000int * 1024 == 0x8000_0000_0000_0000int);
    }
}

/// Rounding a value below 2^63 to a multiple of a divisor of 2^63 stays at
/// most 2^63.
proof fn lemma_rounded_below_top(n: int, u: int, q: int)
    requires
        0 <= n < 0x8000_0000_0000_0000int,
        0 < u,
        (0x8000_0000_0000_0000int / u) * u == 0x8000_0000_0000_0000int,
        0 <= q <= n / u + 1,
    ensures
        q * u <= 0x8000_0000_0000_0000int,
{
    let m = 0x8000_0000_0000_0000int / u;
    vstd::arithmetic::div_mod::lemma_fundamental_div_mod(n, u);
    assert(n / u < m) by (nonlinear_arith)
        requires n / u * u <= n, n < m * u, u > 0;
    assert(q * u <= m * u) by (nonlinear_arith)
        requires q <= m, u > 0;
}

fn f64_round_exec(n: u128) -> (r: u128)
    requires
        n < 0x8000_0000_0000_0000,
    ensures
        r == f64_round(n as nat),
        r <= 0x8000_0000_0000_0000,
{
    let u: u128 = if n < 0x20_0000_0000_0000 { 1 }
        else if n < 0x40_0000_0000_0000 { 2 }
        else if n < 0x80_0000_0000_0000 { 4 }
        else if n < 0x100_0000_0000_0000 { 8 }
        else if n < 0x200_0000_0000_0000 { 16 }
        else if n < 0x400_0000_0000_0000 { 32 }
        else if n < 0x800_0000_0000_0000 { 64 }
        else if n < 0x1000_0000_0000_0000 { 128 }
        else if n < 0x2000_0000_0000_0000 { 256 }
        else if n < 0x4000_0000_0000_0000 { 512 }
        else { 1024 };
    assert(u == f64_spacing(n as nat));
    let q = div_round_even_exec(n, u);
    proof {
        lemma_power_of_two_divides_top(u as int);
        lemma_rounded_below_top(n as int, u as int, q as int);
    }
    q * u
}

fn one_decimal_exec(v: u128, d: u128) -> (r: Vec<char>)
    requires
        0 < d <= 0x1_0000_0000,
        v <= 0x8000_0000_0000_0000,
    ensures
        r@ == one_decimal(v as nat, d as nat),
{
    let t = div_round_even_exec(v * 10, d);
    let mut out = dec_exec(t / 10);
    out.push('.');
    out.push(digit_exec(t % 10));
    assert(out@ =~= dec((t / 10) as nat) + "."@ + seq![digit((t % 10) as nat)]) by {
        reveal_strlit(".");
    }
    out
}

/// Renders the size column of the content list.
pub fn fmt_size(v: Option<i64>) -> (r: String)
    ensures
        r@ == size_label(v),
{
    match v {
        None => string_of(&chars_of("—")),
        Some(n) => if n < 1024 {
            let mut out: Vec<char>;
            if n < 0 {
                let a: u128 = if n == i64::MIN { 0x8000_0000_0000_0000 } else { (-n) as u128 };
                out = concat(&chars_of("-"), &dec_exec(a));
            } else {
                out = dec_exec(n as u128);
            }
            string_of(&concat(&out, &chars_of(" B")))
        } else if n < 1048576 {
            string_of(&concat(&one_decimal_exec(n as u128, 1024), &chars_of(" KB")))
        } else {
            let m = f64_round_exec(n as u128);
            string_of(&concat(&one_decimal_exec(m, 1048576), &chars_of(" MB")))
        },
    }
}


// ───────────────────────── Finder-style copy names ─────────────────────────

/// The stem of a name: the text before its last `'.'`, unless that text is
/// empty (hidden files such as `.env` have no extension).
pub open spec fn copy_base(name: Seq<char>) -> Seq<char> {
    match rsplit_once(name, '.') {
        Some((b, _e)) => if b.len() > 0 { b } else { name },
        None => name,
    }
}

/// The extension of a name including its dot, or nothing.
pub open spec fn copy_ext(name: Seq<char>) -> Seq<char> {
    match rsplit_once(name, '.') {
        Some((b, e)) => if b.len() > 0 { "."@ + e } else { Seq::<char>::empty() },
        None => Seq::<char>::empty(),
    }
}

/// The `k`-th name tried for a copy: `a.txt`, `a 副本.txt`, `a 副本 2.txt`, …
pub open spec fn copy_candidate(name: Seq<char>, k: nat) -> Seq<char> {
    if k == 0 {
        name
    } else if k == 1 {
        copy_base(name) + " 副本"@ + copy_ext(name)
    } else {
        copy_base(name) + " 副本 "@ + dec(k) + copy_ext(name)
    }
}

/// `k` is the first candidate index whose name is still free.
pub open spec fn first_free_copy(existing: Seq<String>, name: Seq<char>, k: nat) -> bool {
    &&& !has_str(existing, copy_candidate(name, k))
    &&& forall|j: nat| j < k ==> has_str(existing, #[trigger] copy_candidate(name, j))
}

/// Copy names past the original are pairwise distinct.
proof fn lemma_copy_candidate_injective(name: Seq<char>, a: nat, b: nat)
    requires
        1 <= a,
        1 <= b,
        copy_candidate(name, a) == copy_candidate(name, b),
    ensures
        a == b,
{
    reveal_strlit(" 副本");
    reveal_strlit(" 副本 ");
    let base = copy_base(name);
    let ext = copy_ext(name);
    lemma_dec_shape(a);
    lemma_dec_shape(b);
    assert(" 副本"@.len() == 3);
    assert(" 副本 "@.len() == 4);
    if a >= 2 {
        assert(copy_candidate(name, a).len() == base.len() + 4 + dec(a).len() + ext.len());
    } else {
        assert(copy_candidate(name, a).len() == base.len() + 3 + ext.len());
    }
    if b >= 2 {
        assert(copy_candidate(name, b).len() == base.len() + 4 + dec(b).len() + ext.len());
    } else {
        assert(copy_candidate(name, b).len() == base.len() + 3 + ext.len());
    }
    if a >= 2 && b >= 2 {
        let ca = copy_candidate(name, a);
        let lo: int = base.len() as int + 4;
        assert(dec(a).len() == dec(b).len());
        assert(ca.subrange(lo, lo + dec(a).len() as int) == dec(a));
        assert(copy_candidate(name, b).subrange(lo, lo + dec(b).len() as int) == dec(b));
        lemma_dec_injective(a, b);
    } else if a >= 2 || b >= 2 {
        assert(copy_candidate(name, a).len() != copy_candidate(name, b).len());
    }
}

/// When the first `m` copy names are all taken, there are at least `m` names.
proof fn lemma_copies_fit(existing: Seq<String>, name: Seq<char>, m: nat)
    requires
        forall|j: nat| 1 <= j <= m ==> has_str(existing, #[trigger] copy_candidate(name, j)),
    ensures
        m <= existing.len(),
{
    let dom = set_int_range(1, m as int + 1);
    let f = |j: int| copy_candidate(name, j as nat);
    lemma_int_range(1, m as int + 1);
    assert forall|x: int, y: int| dom.contains(x) && dom.contains(y) && #[trigger] f(x) == #[trigger] f(y) implies x == y by {
        lemma_copy_candidate_injective(name, x as nat, y as nat);
    }
    lemma_map_size(dom, dom.map(f), f);
    let names = strs(existing);
    assert forall|c: Seq<char>| dom.map(f).contains(c) implies names.to_set().contains(c) by {
        let x = choose|x: int| dom.contains(x) && f(x) == c;
        assert(has_str(existing, copy_candidate(name, x as nat)));
        let i = choose|i: int| 0 <= i < existing.len() && existing[i]@ == copy_candidate(name, x as nat);
        assert(names[i] == c);
    }
    names.lemma_cardinality_of_set();
    lemma_len_subset(dom.map(f), names.to_set());
}

/// Finder-style name for a copy: the name itself when free, else
/// `base 副本.ext`, then `base 副本 2.ext`, `base 副本 3.ext`, … — the first
/// one not among `existing`.
pub fn dedup_name(existing: &[String], name: &str) -> (r: String)
    ensures
        exists|k: nat| #[trigger] copy_candidate(name@, k) == r@ && first_free_copy(existing@, name@, k),
{
    let v = chars_of(name);
    if !contains_str(existing, &v) {
        assert(copy_candidate(name@, 0) == name@);
        return string_of(&v);
    }
    let (base, ext) = match rsplit_once_exec(&v, '.') {
        Some((b, e)) => if b.len() > 0 {
            let mut dot: Vec<char> = Vec::new();
            dot.push('.');
            (b, concat(&dot, &e))
        } else {
            (v.clone(), Vec::new())
        },
        None => (v.clone(), Vec::new()),
    };
    assert(base@ == copy_base(name@) && ext@ == copy_ext(name@)) by {
        reveal_strlit(".");
    }
    let copy_word = chars_of(" 副本");
    let copy_word_sp = chars_of(" 副本 ");
    let mut cand = concat(&concat(&base, &copy_word), &ext);
    assert(cand@ == copy_candidate(name@, 1));
    let mut n: u128 = 2;
    while contains_str(existing, &cand)
        invariant
            2 <= n <= existing.len() + 2,
            base@ == copy_base(name@),
            ext@ == copy_ext(name@),
            copy_word_sp@ == " 副本 "@,
            cand@ == copy_candidate(name@, (n - 1) as nat),
            forall|j: nat| j < n - 1 ==> has_str(existing@, #[trigger] copy_candidate(name@, j)),
        decreases existing.len() + 2 - n,
    {
        proof {
            assert forall|j: nat| 1 <= j <= n - 1 implies has_str(existing@, #[trigger] copy_candidate(name@, j)) by {
                if j < n - 1 {
                    assert(has_str(existing@, copy_candidate(name@, j)));
                }
            }
            lemma_copies_fit(existing@, name@, (n - 1) as nat);
        }
        cand = concat(&concat(&concat(&base, &copy_word_sp), &dec_exec(n)), &ext);
        n += 1;
    }
    string_of(&cand)
}

} // verus!
