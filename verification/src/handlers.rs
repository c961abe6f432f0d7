//! The default handler of `.command` files, read from the LaunchServices
//! preferences exported as XML (`defaults export
//! com.apple.LaunchServices/com.apple.launchservices.secure -`).
//!
//! The export is a top-level dict whose `LSHandlers` key holds an array of
//! handler dicts; each may nest a `LSHandlerPreferredVersions` dict whose role
//! values are usually the placeholder `-`. The scan therefore walks the array
//! dict by dict, tracking nesting depth, and takes from the `.command` entry
//! the first real role value.
use vstd::prelude::*;
use crate::chars::{
    chars_of, contains_exec, contains_sub, lines, lines_exec, seq_eq, starts_with, starts_with_exec,
    string_of, subvec, trim, trim_all, trim_each, trim_end_matches, trim_end_matches_exec, trim_exec,
    trim_start_matches, trim_start_matches_exec, views,
};

verus! {

/// Uniform type identifier of `.command` scripts.
pub open spec fn command_uti() -> Seq<char> {
    "com.apple.terminal.shell-script"@
}

/// The handler roles consulted, in order of preference.
pub open spec fn handler_roles() -> Seq<Seq<char>> {
    seq![
        "LSHandlerRoleAll"@,
        "LSHandlerRoleViewer"@,
        "LSHandlerRoleShell"@,
        "LSHandlerRoleEditor"@,
    ]
}

/// The `<key>…</key>` line that announces a role.
pub open spec fn role_key(role: Seq<char>) -> Seq<char> {
    "<key>"@ + role + "</key>"@
}

/// The value on the line after `block[i]`, with its `<string>` tags and
/// surrounding whitespace removed (empty when there is no next line).
pub open spec fn role_value(block: Seq<Seq<char>>, i: int) -> Seq<char> {
    if 0 <= i && i + 1 < block.len() {
        trim(trim_end_matches(trim_start_matches(block[i + 1], "<string>"@), "</string>"@))
    } else {
        Seq::<char>::empty()
    }
}

/// Line `i` announces `key` and is followed by a real value (not empty,
/// not the `-` placeholder).
pub open spec fn real_role_at(block: Seq<Seq<char>>, key: Seq<char>, i: int) -> bool {
    &&& 0 <= i < block.len()
    &&& contains_sub(block[i], key)
    &&& role_value(block, i).len() > 0
    &&& role_value(block, i) != "-"@
}

/// The first real value announced by `key` at or after line `i`.
pub open spec fn role_from(block: Seq<Seq<char>>, key: Seq<char>, i: int) -> Option<Seq<char>>
    decreases block.len() - i,
{
    if i < 0 || i >= block.len() {
        None
    } else if real_role_at(block, key, i) {
        Some(role_value(block, i))
    } else {
        role_from(block, key, i + 1)
    }
}

/// The handler of one dict: the first role (in preference order) that has a
/// real value, starting the search at role `r`.
pub open spec fn role_of_from(block: Seq<Seq<char>>, r: int) -> Option<Seq<char>>
    decreases handler_roles().len() - r,
{
    if r < 0 || r >= handler_roles().len() {
        None
    } else {
        match role_from(block, role_key(handler_roles()[r]), 0) {
            Some(v) => Some(v),
            None => role_of_from(block, r + 1),
        }
    }
}

/// The handler named by one dict.
pub open spec fn role_of(block: Seq<Seq<char>>) -> Option<Seq<char>> {
    role_of_from(block, 0)
}

/// Some line of the dict mentions the `.command` type.
pub open spec fn mentions_command(block: Seq<Seq<char>>) -> bool {
    exists|i: int| 0 <= i < block.len() && contains_sub(#[trigger] block[i], command_uti())
}

/// What one line does to the walk over the `LSHandlers` array.
pub enum WalkNext {
    /// The walk ends with this answer.
    Done(Option<Seq<char>>),
    /// The walk goes on in this state: inside the array, dict depth, lines
    /// of the current top-level dict.
    Go(bool, nat, Seq<Seq<char>>),
}

/// One line of the walk. Before the array only `<array>` matters; `</array>`
/// at depth 0 ends the walk; `<dict>` at depth 0 starts a new top-level dict;
/// lines inside dicts are collected; the `</dict>` that closes a top-level
/// dict ends the walk when that dict mentions the `.command` type and names a
/// role, and otherwise forgets it.
pub open spec fn walk_step(line: Seq<char>, in_array: bool, depth: nat, block: Seq<Seq<char>>) -> WalkNext {
    if !in_array {
        WalkNext::Go(starts_with(line, "<array>"@), depth, block)
    } else if starts_with(line, "</array>"@) && depth == 0 {
        WalkNext::Done(None)
    } else {
        let opens = starts_with(line, "<dict>"@);
        let block1 = if opens && depth == 0 { Seq::<Seq<char>>::empty() } else { block };
        let depth1: nat = if opens { depth + 1 } else { depth };
        let block2 = if depth1 > 0 { block1.push(line) } else { block1 };
        if starts_with(line, "</dict>"@) {
            let depth2: nat = if depth1 > 0 { (depth1 - 1) as nat } else { 0 };
            if depth2 == 0 {
                if mentions_command(block2) && role_of(block2) is Some {
                    WalkNext::Done(role_of(block2))
                } else {
                    WalkNext::Go(true, 0, Seq::<Seq<char>>::empty())
                }
            } else {
                WalkNext::Go(true, depth2, block2)
            }
        } else {
            WalkNext::Go(true, depth1, block2)
        }
    }
}

/// Walks the lines after the `LSHandlers` key from the given state; the end
/// of the text ends the walk with nothing.
pub open spec fn handler_walk(
    ls: Seq<Seq<char>>,
    in_array: bool,
    depth: nat,
    block: Seq<Seq<char>>,
) -> Option<Seq<char>>
    decreases ls.len(),
{
    if ls.len() == 0 {
        None
    } else {
        match walk_step(ls[0], in_array, depth, block) {
            WalkNext::Done(r) => r,
            WalkNext::Go(a, d, b) => handler_walk(ls.drop_first(), a, d, b),
        }
    }
}

/// The trimmed lines of the export.
pub open spec fn trimmed_lines(xml: Seq<char>) -> Seq<Seq<char>> {
    trim_all(lines(xml))
}

/// The first line that holds the `LSHandlers` key.
pub open spec fn handlers_key_line(ls: Seq<Seq<char>>, h: int) -> bool {
    &&& 0 <= h < ls.len()
    &&& contains_sub(ls[h], "<key>LSHandlers</key>"@)
    &&& forall|j: int| 0 <= j < h ==> !contains_sub(#[trigger] ls[j], "<key>LSHandlers</key>"@)
}

/// The bundle id that handles `.command` files according to the export:
/// nothing without an `LSHandlers` key, else the walk of the lines after it.
pub open spec fn command_handler(xml: Seq<char>) -> Option<Seq<char>> {
    let ls = trimmed_lines(xml);
    if exists|h: int| handlers_key_line(ls, h) {
        let h = choose|h: int| handlers_key_line(ls, h);
        handler_walk(ls.skip(h + 1), false, 0, Seq::<Seq<char>>::empty())
    } else {
        None
    }
}

/// The first real value announced by `key` in `block`, from line `start` on.
fn role_from_exec(block: &Vec<Vec<char>>, key: &[char], start: usize) -> (r: Option<Vec<char>>)
    requires
        start <= block.len(),
    ensures
        r matches Some(v) ==> role_from(views(block@), key@, start as int) == Some(v@),
        r is None ==> role_from(views(block@), key@, start as int) is None,
    decreases block.len() - start,
{
    let ghost b = views(block@);
    if start == block.len() {
        return None;
    }
    assert(b[start as int] == block@[start as int]@);
    if contains_exec(&block[start], key) && start + 1 < block.len() {
        let open_tag = chars_of("<string>");
        let close_tag = chars_of("</string>");
        let a = trim_start_matches_exec(&block[start + 1], &open_tag);
        let c = trim_end_matches_exec(&a, &close_tag);
        let v = trim_exec(&c);
        assert(b[start + 1] == block@[start + 1]@);
        assert(v@ == role_value(b, start as int));
        let dash = chars_of("-");
        if v.len() > 0 && !seq_eq(&v, &dash) {
            return Some(v);
        }
    }
    role_from_exec(block, key, start + 1)
}

/// The handler named by one dict.
fn role_of_exec(block: &Vec<Vec<char>>) -> (r: Option<Vec<char>>)
    ensures
        r matches Some(v) ==> role_of(views(block@)) == Some(v@),
        r is None ==> role_of(views(block@)) is None,
{
    let roles = [
        chars_of("LSHandlerRoleAll"),
        chars_of("LSHandlerRoleViewer"),
        chars_of("LSHandlerRoleShell"),
        chars_of("LSHandlerRoleEditor"),
    ];
    assert(views(roles@) == handler_roles());
    let mut k: usize = 0;
    while k < 4
        invariant
            k <= 4,
            roles@.len() == 4,
            views(roles@) == handler_roles(),
            role_of(views(block@)) == role_of_from(views(block@), k as int),
        decreases 4 - k,
    {
        let key = concat3(&chars_of("<key>"), &roles[k], &chars_of("</key>"));
        assert(key@ == role_key(handler_roles()[k as int]));
        match role_from_exec(block, &key, 0) {
            Some(v) => {
                return Some(v);
            },
            None => {},
        }
        k += 1;
    }
    None
}

fn concat3(a: &[char], b: &[char], c: &[char]) -> (r: Vec<char>)
    ensures
        r@ == a@ + b@ + c@,
{
    let mut r = subvec(a, 0, a.len());
    assert(a@.subrange(0, a@.len() as int) == a@);
    let mut i: usize = 0;
    while i < b.len()
        invariant
            i <= b.len(),
            r@ == a@ + b@.take(i as int),
        decreases b.len() - i,
    {
        r.push(b[i]);
        i += 1;
        assert(r@ == a@ + b@.take(i as int));
    }
    assert(b@.take(b.len() as int) == b@);
    let mut j: usize = 0;
    while j < c.len()
        invariant
            j <= c.len(),
            r@ == a@ + b@ + c@.take(j as int),
        decreases c.len() - j,
    {
        r.push(c[j]);
        j += 1;
        assert(r@ == a@ + b@ + c@.take(j as int));
    }
    assert(c@.take(c.len() as int) == c@);
    r
}

/// Whether some line of the dict mentions the `.command` type.
fn mentions_command_exec(block: &Vec<Vec<char>>) -> (r: bool)
    ensures
        r == mentions_command(views(block@)),
{
    let uti = chars_of("com.apple.terminal.shell-script");
    let mut i: usize = 0;
    while i < block.len()
        invariant
            i <= block.len(),
            uti@ == command_uti(),
            forall|j: int| 0 <= j < i ==> !contains_sub(#[trigger] views(block@)[j], command_uti()),
        decreases block.len() - i,
    {
        if contains_exec(&block[i], &uti) {
            assert(contains_sub(views(block@)[i as int], command_uti()));
            return true;
        }
        i += 1;
    }
    false
}

/// The bundle id of the default `.command` handler named by a LaunchServices
/// export, or `None` when the export has no `LSHandlers` array, no entry for
/// `.command` files, or only placeholder role values there.
pub fn parse_command_handler_from_ls_handlers_xml(xml: &str) -> (r: Option<String>)
    ensures
        r matches Some(s) ==> command_handler(xml@) == Some(s@),
        r is None ==> command_handler(xml@) is None,
{
    let text = chars_of(xml);
    let raw = lines_exec(&text);
    let ls = trim_each(&raw);
    let ghost lsv = views(ls@);
    assert(lsv == trimmed_lines(xml@));
    let key = chars_of("<key>LSHandlers</key>");
    let mut h: usize = 0;
    while h < ls.len() && !contains_exec(&ls[h], &key)
        invariant
            h <= ls.len(),
            lsv == views(ls@),
            key@ == "<key>LSHandlers</key>"@,
            forall|j: int| 0 <= j < h ==> !contains_sub(#[trigger] lsv[j], "<key>LSHandlers</key>"@),
        decreases ls.len() - h,
    {
        h += 1;
    }
    if h == ls.len() {
        assert(!exists|g: int| handlers_key_line(lsv, g));
        return None;
    }
    assert(handlers_key_line(lsv, h as int));
    assert forall|g: int| handlers_key_line(lsv, g) implies g == h by {
        if g < h {
            assert(!contains_sub(lsv[g], "<key>LSHandlers</key>"@));
        } else if g > h {
            assert(!contains_sub(lsv[h as int], "<key>LSHandlers</key>"@));
        }
    }
    let ghost goal = handler_walk(lsv.skip(h + 1), false, 0, Seq::<Seq<char>>::empty());
    assert(command_handler(xml@) == goal);
    let array_open = chars_of("<array>");
    let array_close = chars_of("</array>");
    let dict_open = chars_of("<dict>");
    let dict_close = chars_of("</dict>");
    let mut in_array = false;
    let mut depth: usize = 0;
    let mut block: Vec<Vec<char>> = Vec::new();
    let mut k = h + 1;
    assert(lsv.skip(h + 1) == lsv.skip(k as int));
    assert(views(block@) =~= Seq::<Seq<char>>::empty());
    while k < ls.len()
        invariant
            h + 1 <= k <= ls.len(),
            lsv == views(ls@),
            command_handler(xml@) == goal,
            array_open@ == "<array>"@,
            array_close@ == "</array>"@,
            dict_open@ == "<dict>"@,
            dict_close@ == "</dict>"@,
            depth <= k,
            handler_walk(lsv.skip(k as int), in_array, depth as nat, views(block@)) == goal,
        decreases ls.len() - k,
    {
        let ghost rest = lsv.skip(k as int);
        let ghost step = walk_step(ls@[k as int]@, in_array, depth as nat, views(block@));
        assert(rest[0] == ls@[k as int]@);
        assert(rest.drop_first() == lsv.skip(k + 1));
        assert(handler_walk(rest, in_array, depth as nat, views(block@)) == match step {
            WalkNext::Done(r) => r,
            WalkNext::Go(a, d, b) => handler_walk(lsv.skip(k + 1), a, d, b),
        });
        let line = &ls[k];
        if !in_array {
            in_array = starts_with_exec(line, &array_open);
            k += 1;
            continue;
        }
        if starts_with_exec(line, &array_close) && depth == 0 {
            assert(step == WalkNext::Done(None));
            return None;
        }
        let opens = starts_with_exec(line, &dict_open);
        if opens {
            if depth == 0 {
                block = Vec::new();
                assert(views(block@) =~= Seq::<Seq<char>>::empty());
            }
            depth += 1;
        }
        if depth > 0 {
            let ghost before = views(block@);
            block.push(subvec(line, 0, line.len()));
            assert(line@.subrange(0, line@.len() as int) == line@);
            assert(views(block@) =~= before.push(line@));
        }
        if starts_with_exec(line, &dict_close) {
            depth = if depth > 0 { depth - 1 } else { 0 };
            if depth == 0 {
                let mentions = mentions_command_exec(&block);
                if mentions {
                    match role_of_exec(&block) {
                        Some(v) => {
                            let out = string_of(&v);
                            assert(step == WalkNext::Done(Some(v@)));
                            return Some(out);
                        },
                        None => {},
                    }
                }
                block = Vec::new();
                assert(views(block@) =~= Seq::<Seq<char>>::empty());
            }
        }
        assert(step == WalkNext::Go(in_array, depth as nat, views(block@)));
        k += 1;
    }
    assert(lsv.skip(k as int).len() == 0);
    None
}

proof fn lemma_role_from_real(block: Seq<Seq<char>>, key: Seq<char>, i: int)
    ensures
        role_from(block, key, i) matches Some(v) ==> v.len() > 0 && v != "-"@,
    decreases block.len() - i,
{
    if 0 <= i < block.len() && !real_role_at(block, key, i) {
        lemma_role_from_real(block, key, i + 1);
    }
}

proof fn lemma_role_of_from_real(block: Seq<Seq<char>>, r: int)
    ensures
        role_of_from(block, r) matches Some(v) ==> v.len() > 0 && v != "-"@,
    decreases handler_roles().len() - r,
{
    if 0 <= r < handler_roles().len() {
        lemma_role_from_real(block, role_key(handler_roles()[r]), 0);
        lemma_role_of_from_real(block, r + 1);
    }
}

proof fn lemma_walk_real(ls: Seq<Seq<char>>, in_array: bool, depth: nat, block: Seq<Seq<char>>)
    ensures
        handler_walk(ls, in_array, depth, block) matches Some(v) ==> v.len() > 0 && v != "-"@,
    decreases ls.len(),
{
    if ls.len() > 0 {
        match walk_step(ls[0], in_array, depth, block) {
            WalkNext::Done(r) => {
                if r is Some {
                    let opens = starts_with(ls[0], "<dict>"@);
                    let block1 = if opens && depth == 0 { Seq::<Seq<char>>::empty() } else { block };
                    let depth1: nat = if opens { depth + 1 } else { depth };
                    let block2 = if depth1 > 0 { block1.push(ls[0]) } else { block1 };
                    lemma_role_of_from_real(block2, 0);
                }
            },
            WalkNext::Go(a, d, b) => {
                lemma_walk_real(ls.drop_first(), a, d, b);
            },
        }
    }
}

/// The `.command` handler read from an export is a real role value (not
/// empty, not the `-` placeholder), and an export without an `LSHandlers`
/// key names none.
pub proof fn law_command_handler_is_real(xml: Seq<char>)
    ensures
        command_handler(xml) matches Some(v) ==> v.len() > 0 && v != "-"@,
        (forall|i: int| 0 <= i < trimmed_lines(xml).len() ==> !contains_sub(#[trigger] trimmed_lines(xml)[i], "<key>LSHandlers</key>"@))
            ==> command_handler(xml) is None,
{
    let ls = trimmed_lines(xml);
    if exists|h: int| handlers_key_line(ls, h) {
        let h = choose|h: int| handlers_key_line(ls, h);
        lemma_walk_real(ls.skip(h + 1), false, 0, Seq::<Seq<char>>::empty());
    }
}

/// `v` is the value after a role-key line of `block`, for one of the
/// handler roles.
pub open spec fn named_in(block: Seq<Seq<char>>, v: Seq<char>) -> bool {
    exists|r: int, i: int| 0 <= r < handler_roles().len() && #[trigger] real_role_at(block, role_key(handler_roles()[r]), i)
        && role_value(block, i) == v
}

proof fn lemma_role_from_named(block: Seq<Seq<char>>, r: int, i: int)
    requires
        0 <= r < handler_roles().len(),
    ensures
        role_from(block, role_key(handler_roles()[r]), i) matches Some(v) ==> named_in(block, v),
    decreases block.len() - i,
{
    if 0 <= i < block.len() && !real_role_at(block, role_key(handler_roles()[r]), i) {
        lemma_role_from_named(block, r, i + 1);
    }
}

proof fn lemma_role_of_named(block: Seq<Seq<char>>, r: int)
    ensures
        role_of_from(block, r) matches Some(v) ==> named_in(block, v),
    decreases handler_roles().len() - r,
{
    if 0 <= r < handler_roles().len() {
        lemma_role_from_named(block, r, 0);
        lemma_role_of_named(block, r + 1);
    }
}

/// Lines `lo..hi` of `ls` are one dict of the array that follows line `h`:
/// an `<array>` line lies between `h` and `lo`, the run opens with `<dict>`
/// and closes with `</dict>`.
pub open spec fn dict_after(ls: Seq<Seq<char>>, h: int, lo: int, hi: int) -> bool {
    &&& h < lo < hi <= ls.len()
    &&& starts_with(ls[lo], "<dict>"@)
    &&& starts_with(ls[hi - 1], "</dict>"@)
    &&& exists|a: int| h < a < lo && #[trigger] starts_with(ls[a], "<array>"@)
}

/// The walk from line `p` of `ls` (after line `h`), with the current dict's
/// lines `block` (lines `q..p`, opened by a `<dict>` line, while inside a
/// dict), answers only with a value named in one dict of the array after
/// `h` that mentions the `.command` type.
proof fn lemma_walk_named(ls: Seq<Seq<char>>, h: int, p: int, q: int, in_array: bool, depth: nat, block: Seq<Seq<char>>)
    requires
        0 <= h < q <= p <= ls.len(),
        depth == 0 ==> block.len() == 0,
        depth > 0 ==> block == ls.subrange(q, p) && q < p && starts_with(ls[q], "<dict>"@)
            && exists|a: int| h < a < q && #[trigger] starts_with(ls[a], "<array>"@),
        !in_array ==> depth == 0,
        in_array ==> exists|a: int| h < a < p && #[trigger] starts_with(ls[a], "<array>"@),
    ensures
        handler_walk(ls.skip(p), in_array, depth, block) matches Some(v) ==> exists|lo: int, hi: int|
            #[trigger] dict_after(ls, h, lo, hi) && mentions_command(ls.subrange(lo, hi)) && named_in(ls.subrange(lo, hi), v),
    decreases ls.len() - p,
{
    if p < ls.len() {
        let rest = ls.skip(p);
        assert(rest[0] == ls[p]);
        assert(rest.drop_first() =~= ls.skip(p + 1));
        let line = ls[p];
        let opens = starts_with(line, "<dict>"@);
        let q1 = if opens && depth == 0 { p } else { q };
        let block1 = if opens && depth == 0 { Seq::<Seq<char>>::empty() } else { block };
        let depth1: nat = if opens { depth + 1 } else { depth };
        let block2 = if depth1 > 0 { block1.push(line) } else { block1 };
        if depth1 > 0 {
            assert(block2 =~= ls.subrange(q1, p + 1));
        }
        match walk_step(line, in_array, depth, block) {
            WalkNext::Done(r) => {
                if r is Some {
                    lemma_role_of_named(block2, 0);
                    assert(depth1 > 0);
                    assert(block2 =~= ls.subrange(q1, p + 1));
                    assert(mentions_command(ls.subrange(q1, p + 1)));
                    assert(dict_after(ls, h, q1, p + 1));
                }
            },
            WalkNext::Go(a, d, b) => {
                if !in_array {
                    if a {
                        assert(starts_with(ls[p], "<array>"@));
                    }
                    lemma_walk_named(ls, h, p + 1, p + 1, a, d, b);
                } else if d > 0 {
                    assert(b == block2);
                    lemma_walk_named(ls, h, p + 1, q1, a, d, b);
                } else {
                    lemma_walk_named(ls, h, p + 1, p + 1, a, d, b);
                }
            },
        }
    }
}

/// The `.command` handler read from an export is the value after a role
/// key (`LSHandlerRoleAll`, `…Viewer`, `…Shell` or `…Editor`) inside one
/// dict of the array after the `LSHandlers` key, a dict that mentions the
/// `.command` type.
pub proof fn law_command_handler_is_named(xml: Seq<char>)
    ensures
        command_handler(xml) matches Some(v) ==> exists|h: int, lo: int, hi: int|
            handlers_key_line(trimmed_lines(xml), h) && #[trigger] dict_after(trimmed_lines(xml), h, lo, hi)
                && mentions_command(trimmed_lines(xml).subrange(lo, hi))
                && named_in(trimmed_lines(xml).subrange(lo, hi), v),
{
    let ls = trimmed_lines(xml);
    if exists|h: int| handlers_key_line(ls, h) {
        let h = choose|h: int| handlers_key_line(ls, h);
        lemma_walk_named(ls, h, h + 1, h + 1, false, 0, Seq::<Seq<char>>::empty());
    }
}

} // verus!
