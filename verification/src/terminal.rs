//! Choosing the terminal for "show in terminal" on macOS: the `.command`
//! handler unless it is an editor, then a chain of candidates (the
//! terminal the editor was started from, running terminals, installed
//! terminals, Terminal.app), each tried in turn.
use vstd::prelude::*;
use crate::chars::{
    chars_of, eq_ignore_ascii_case, join, join_exec, eq_ignore_ascii_case_exec, lines, lines_exec, non_empty,
    non_empty_exec, split_by, split_on, string_of, trim_end_matches, trim_end_matches_exec,
};
use crate::model::{str_set, list_contains};
use crate::text::{strs, to_char_vecs, to_strings};

verus! {

/// Bundle ids that may handle `.command` files but are no terminals.
pub open spec fn not_terminal_bundles() -> Seq<Seq<char>> {
    seq![
        "com.apple.dt.Xcode"@,
        "com.apple.TextEdit"@,
        "com.apple.finder"@,
        "com.apple.Preview"@,
        "com.microsoft.VSCode"@,
        "com.sublimetext.4"@,
        "com.sublimetext.3"@,
        "com.barebones.bbedit"@,
        "com.panic.Nova"@,
    ]
}

/// The `.command` handler is a terminal (not a known editor or viewer,
/// compared ignoring ASCII case).
pub open spec fn handler_usable(bundle: Seq<char>) -> bool {
    forall|i: int| 0 <= i < not_terminal_bundles().len() ==> !eq_ignore_ascii_case(#[trigger] not_terminal_bundles()[i], bundle)
}

/// Whether the `.command` handler may be used as the terminal.
pub fn terminal_handler_usable(bundle: &str) -> (r: bool)
    ensures
        r == handler_usable(bundle@),
{
    let b = chars_of(bundle);
    let list = [
        chars_of("com.apple.dt.Xcode"),
        chars_of("com.apple.TextEdit"),
        chars_of("com.apple.finder"),
        chars_of("com.apple.Preview"),
        chars_of("com.microsoft.VSCode"),
        chars_of("com.sublimetext.4"),
        chars_of("com.sublimetext.3"),
        chars_of("com.barebones.bbedit"),
        chars_of("com.panic.Nova"),
    ];
    let ghost names = Seq::new(9, |i: int| list@[i]@);
    assert(names =~= not_terminal_bundles());
    let mut i: usize = 0;
    while i < 9
        invariant
            i <= 9,
            b@ == bundle@,
            list@.len() == 9,
            names == Seq::new(9, |k: int| list@[k]@),
            names == not_terminal_bundles(),
            forall|k: int| 0 <= k < i ==> !eq_ignore_ascii_case(#[trigger] not_terminal_bundles()[k], b@),
        decreases 9 - i,
    {
        if eq_ignore_ascii_case_exec(&list[i], &b) {
            assert(eq_ignore_ascii_case(not_terminal_bundles()[i as int], b@));
            return false;
        }
        i += 1;
    }
    true
}

/// The application named by a `TERM_PROGRAM` / `LC_TERMINAL` value.
pub open spec fn term_program_app(v: Seq<char>) -> Option<Seq<char>> {
    if v == "Apple_Terminal"@ { Some("Terminal"@) }
    else if v == "iTerm.app"@ { Some("iTerm"@) }
    else if v == "iTerm2"@ { Some("iTerm"@) }
    else if v == "WarpTerminal"@ { Some("Warp"@) }
    else if v == "ghostty"@ { Some("Ghostty"@) }
    else if v == "Ghostty"@ { Some("Ghostty"@) }
    else if v == "kitty"@ { Some("kitty"@) }
    else if v == "WezTerm"@ { Some("WezTerm"@) }
    else { None }
}

fn term_program_app_exec(v: &String) -> (r: Option<String>)
    ensures
        match r {
            Some(a) => term_program_app(v@) == Some(a@),
            None => term_program_app(v@) is None,
        },
{
    if *v == "Apple_Terminal".to_owned() { Some("Terminal".to_owned()) }
    else if *v == "iTerm.app".to_owned() { Some("iTerm".to_owned()) }
    else if *v == "iTerm2".to_owned() { Some("iTerm".to_owned()) }
    else if *v == "WarpTerminal".to_owned() { Some("Warp".to_owned()) }
    else if *v == "ghostty".to_owned() { Some("Ghostty".to_owned()) }
    else if *v == "Ghostty".to_owned() { Some("Ghostty".to_owned()) }
    else if *v == "kitty".to_owned() { Some("kitty".to_owned()) }
    else if *v == "WezTerm".to_owned() { Some("WezTerm".to_owned()) }
    else { None }
}

/// Common terminals: process name and application paths.
pub open spec fn mac_terminals() -> Seq<(Seq<char>, Seq<Seq<char>>)> {
    seq![
        ("iTerm2"@, seq!["/Applications/iTerm.app"@, "/Applications/iTerm2.app"@]),
        ("Warp"@, seq!["/Applications/Warp.app"@]),
        ("Ghostty"@, seq!["/Applications/Ghostty.app"@]),
        ("kitty"@, seq!["/Applications/kitty.app"@]),
        ("Alacritty"@, seq!["/Applications/Alacritty.app"@]),
        ("WezTerm"@, seq!["/Applications/WezTerm.app"@]),
        ("Hyper"@, seq!["/Applications/Hyper.app"@]),
        ("Tabby"@, seq!["/Applications/Tabby.app"@]),
    ]
}

/// Adds a candidate: trailing slashes dropped, empty and already listed
/// names (ignoring ASCII case) skipped.
pub open spec fn push_candidate(list: Seq<Seq<char>>, c: Seq<char>) -> Seq<Seq<char>> {
    let t = trim_end_matches(c, "/"@);
    if t.len() > 0 && !(exists|i: int| 0 <= i < list.len() && eq_ignore_ascii_case(#[trigger] list[i], t)) {
        list.push(t)
    } else {
        list
    }
}

/// The candidates after offering `offers` in order.
pub open spec fn push_all_candidates(list: Seq<Seq<char>>, offers: Seq<Seq<char>>) -> Seq<Seq<char>>
    decreases offers.len(),
{
    if offers.len() == 0 {
        list
    } else {
        push_candidate(push_all_candidates(list, offers.drop_last()), offers.last())
    }
}

/// Offers one candidate.
pub fn push_candidate_exec(list: &mut Vec<String>, c: &str)
    ensures
        strs(final(list)@) == push_candidate(strs(old(list)@), c@),
{
    let mut slash: Vec<char> = Vec::new();
    slash.push('/');
    assert(slash@ == "/"@) by {
        reveal_strlit("/");
    }
    let t = trim_end_matches_exec(&chars_of(c), &slash);
    if t.len() == 0 {
        return;
    }
    let ghost names = strs(list@);
    let mut i: usize = 0;
    while i < list.len()
        invariant
            i <= list@.len(),
            *list == *old(list),
            t@ == trim_end_matches(c@, "/"@),
            t@.len() > 0,
            names == strs(list@),
            forall|k: int| 0 <= k < i ==> !eq_ignore_ascii_case(#[trigger] names[k], t@),
        decreases list.len() - i,
    {
        if eq_ignore_ascii_case_exec(&chars_of(list[i].as_str()), &t) {
            assert(eq_ignore_ascii_case(names[i as int], t@));
            return;
        }
        i += 1;
    }
    list.push(string_of(&t));
    assert(strs(list@) =~= names.push(t@));
}

/// Process names in `pgrep -l` output: the second field of each line.
pub open spec fn pgrep_names(out: Seq<char>) -> Seq<Seq<char>> {
    pgrep_names_of(lines(out))
}

/// Characters with the Unicode `White_Space` property.
pub open spec fn ws_chars() -> Seq<char> {
    seq![
        '\u{9}', '\u{A}', '\u{B}', '\u{C}', '\u{D}', ' ', '\u{85}', '\u{A0}', '\u{1680}',
        '\u{2000}', '\u{2001}', '\u{2002}', '\u{2003}', '\u{2004}', '\u{2005}', '\u{2006}',
        '\u{2007}', '\u{2008}', '\u{2009}', '\u{200A}', '\u{2028}', '\u{2029}', '\u{202F}',
        '\u{205F}', '\u{3000}',
    ]
}

/// The second whitespace-separated field of each line that has one.
pub open spec fn pgrep_names_of(ls: Seq<Seq<char>>) -> Seq<Seq<char>>
    decreases ls.len(),
{
    if ls.len() == 0 {
        Seq::<Seq<char>>::empty()
    } else {
        let before = pgrep_names_of(ls.drop_last());
        let fields = non_empty(split_by(ls.last(), ws_chars()));
        if fields.len() > 1 { before.push(fields[1]) } else { before }
    }
}

/// Reads the process names from `pgrep -l` output.
pub fn parse_pgrep_names(out: &str) -> (r: Vec<String>)
    ensures
        strs(r@) == pgrep_names(out@),
{
    let ls = lines_exec(&chars_of(out));
    let ghost lv = crate::chars::views(ls@);
    let ws = [
        '\u{9}', '\u{A}', '\u{B}', '\u{C}', '\u{D}', ' ', '\u{85}', '\u{A0}', '\u{1680}',
        '\u{2000}', '\u{2001}', '\u{2002}', '\u{2003}', '\u{2004}', '\u{2005}', '\u{2006}',
        '\u{2007}', '\u{2008}', '\u{2009}', '\u{200A}', '\u{2028}', '\u{2029}', '\u{202F}',
        '\u{205F}', '\u{3000}',
    ];
    assert(ws@ =~= ws_chars());
    let mut names: Vec<String> = Vec::new();
    let mut i: usize = 0;
    while i < ls.len()
        invariant
            i <= ls@.len(),
            lv == crate::chars::views(ls@),
            ws@ == ws_chars(),
            strs(names@) == pgrep_names_of(lv.take(i as int)),
        decreases ls.len() - i,
    {
        assert(lv.take(i + 1).drop_last() =~= lv.take(i as int));
        assert(lv.take(i + 1).last() == ls@[i as int]@);
        let fields = non_empty_exec(split_on(&ls[i], &ws));
        if fields.len() > 1 {
            let ghost before = strs(names@);
            names.push(string_of(&fields[1]));
            assert(strs(names@) =~= before.push(crate::chars::views(fields@)[1]));
        }
        i += 1;
    }
    assert(lv.take(ls@.len() as int) =~= lv);
    names
}

/// The fallback candidates, in order of offer: the applications named by
/// `TERM_PROGRAM` and `LC_TERMINAL`; each common terminal that is running
/// (its first installed path, else its process name); every installed
/// path of the common terminals; Terminal.app by path when installed, else
/// by name.
pub open spec fn fallback_offers(
    term_program: Option<Seq<char>>,
    lc_terminal: Option<Seq<char>>,
    running: Seq<Seq<char>>,
    installed: Set<Seq<char>>,
) -> Seq<Seq<char>> {
    let env_apps = env_offer(term_program) + env_offer(lc_terminal);
    env_apps + running_offers(mac_terminals(), running, installed) + installed_offers(mac_terminals(), installed)
        + seq![if installed.contains(terminal_app_path()) { terminal_app_path() } else { "Terminal"@ }]
}

pub open spec fn terminal_app_path() -> Seq<char> {
    "/System/Applications/Utilities/Terminal.app"@
}

pub open spec fn env_offer(v: Option<Seq<char>>) -> Seq<Seq<char>> {
    match v {
        Some(v) => match term_program_app(v) {
            Some(a) => seq![a],
            None => Seq::<Seq<char>>::empty(),
        },
        None => Seq::<Seq<char>>::empty(),
    }
}

/// First installed path among `paths`.
pub open spec fn first_installed(paths: Seq<Seq<char>>, installed: Set<Seq<char>>) -> Option<Seq<char>>
    decreases paths.len(),
{
    if paths.len() == 0 {
        None
    } else if installed.contains(paths[0]) {
        Some(paths[0])
    } else {
        first_installed(paths.drop_first(), installed)
    }
}

pub open spec fn running_offers(ts: Seq<(Seq<char>, Seq<Seq<char>>)>, running: Seq<Seq<char>>, installed: Set<Seq<char>>) -> Seq<Seq<char>>
    decreases ts.len(),
{
    if ts.len() == 0 {
        Seq::<Seq<char>>::empty()
    } else {
        let before = running_offers(ts.drop_last(), running, installed);
        let (name, paths) = ts.last();
        if exists|i: int| 0 <= i < running.len() && eq_ignore_ascii_case(#[trigger] running[i], name) {
            before.push(match first_installed(paths, installed) { Some(p) => p, None => name })
        } else {
            before
        }
    }
}

pub open spec fn installed_offers(ts: Seq<(Seq<char>, Seq<Seq<char>>)>, installed: Set<Seq<char>>) -> Seq<Seq<char>>
    decreases ts.len(),
{
    if ts.len() == 0 {
        Seq::<Seq<char>>::empty()
    } else {
        installed_offers(ts.drop_last(), installed) + ts.last().1.filter(|p: Seq<char>| installed.contains(p))
    }
}

/// The fallback terminal candidates (after the `.command` handler), with
/// duplicates (ignoring ASCII case) and empty names removed.
/// `running`: process names reported by `pgrep`; `installed`: the
/// application paths that exist.
pub open spec fn fallback_candidates(
    term_program: Option<Seq<char>>,
    lc_terminal: Option<Seq<char>>,
    running: Seq<Seq<char>>,
    installed: Set<Seq<char>>,
) -> Seq<Seq<char>> {
    push_all_candidates(Seq::empty(), fallback_offers(term_program, lc_terminal, running, installed))
}

fn running_exec(running: &Vec<String>, name: &str) -> (r: bool)
    ensures
        r == exists|i: int| 0 <= i < running@.len() && eq_ignore_ascii_case(#[trigger] strs(running@)[i], name@),
{
    let n = chars_of(name);
    let mut i: usize = 0;
    while i < running.len()
        invariant
            i <= running@.len(),
            n@ == name@,
            forall|k: int| 0 <= k < i ==> !eq_ignore_ascii_case(#[trigger] strs(running@)[k], name@),
        decreases running.len() - i,
    {
        if eq_ignore_ascii_case_exec(&chars_of(running[i].as_str()), &n) {
            assert(eq_ignore_ascii_case(strs(running@)[i as int], name@));
            return true;
        }
        i += 1;
    }
    false
}

fn installed_exec(installed: &Vec<String>, p: &str) -> (r: bool)
    ensures
        r == str_set(installed@).contains(p@),
{
    list_contains(installed, &p.to_owned())
}

/// Builds the fallback terminal candidates (see `fallback_candidates`).
pub fn terminal_fallbacks(
    term_program: Option<String>,
    lc_terminal: Option<String>,
    running: &Vec<String>,
    installed: &Vec<String>,
) -> (r: Vec<String>)
    ensures
        strs(r@) == fallback_candidates(
            crate::editor::opt_view(term_program),
            crate::editor::opt_view(lc_terminal),
            strs(running@),
            str_set(installed@),
        ),
{
    let ghost inst = str_set(installed@);
    let mut offers: Vec<String> = Vec::new();
    match &term_program {
        Some(v) => match term_program_app_exec(v) {
            Some(a) => offers.push(a),
            None => {},
        },
        None => {},
    }
    match &lc_terminal {
        Some(v) => match term_program_app_exec(v) {
            Some(a) => offers.push(a),
            None => {},
        },
        None => {},
    }
    let ghost env_part = env_offer(crate::editor::opt_view(term_program)) + env_offer(crate::editor::opt_view(lc_terminal));
    assert(strs(offers@) =~= env_part);
    let procs = ["iTerm2", "Warp", "Ghostty", "kitty", "Alacritty", "WezTerm", "Hyper", "Tabby"];
    let paths0 = ["/Applications/iTerm.app", "/Applications/iTerm2.app"];
    let mut t: usize = 0;
    let ghost ts = mac_terminals();
    while t < 8
        invariant
            t <= 8,
            ts == mac_terminals(),
            forall|k: int| 0 <= k < 8 ==> #[trigger] procs@[k]@ == ts[k].0,
            paths0@[0]@ == ts[0].1[0] && paths0@[1]@ == ts[0].1[1],
            inst == str_set(installed@),
            strs(offers@) == env_part + running_offers(ts.take(t as int), strs(running@), inst),
        decreases 8 - t,
    {
        assert(ts.take(t + 1).drop_last() =~= ts.take(t as int));
        let name = procs[t];
        let ghost before = strs(offers@);
        if running_exec(running, name) {
            let pick: String = if t == 0 {
                if installed_exec(installed, paths0[0]) {
                    paths0[0].to_owned()
                } else if installed_exec(installed, paths0[1]) {
                    paths0[1].to_owned()
                } else {
                    name.to_owned()
                }
            } else {
                let only = app_path_of(t);
                if installed_exec(installed, only.as_str()) { only } else { name.to_owned() }
            };
            assert(pick@ == match first_installed(ts[t as int].1, inst) { Some(p) => p, None => ts[t as int].0 }) by {
                reveal_with_fuel(first_installed, 3);
            }
            offers.push(pick);
            assert(strs(offers@) =~= before.push(pick@));
        }
        t += 1;
    }
    assert(ts.take(8) =~= ts);
    let ghost mid = strs(offers@);
    let mut u: usize = 0;
    while u < 8
        invariant
            u <= 8,
            ts == mac_terminals(),
            inst == str_set(installed@),
            strs(offers@) == mid + installed_offers(ts.take(u as int), inst),
        decreases 8 - u,
    {
        assert(ts.take(u + 1).drop_last() =~= ts.take(u as int));
        let ghost before = strs(offers@);
        if u == 0 {
            let a = installed_exec(installed, "/Applications/iTerm.app");
            let b = installed_exec(installed, "/Applications/iTerm2.app");
            if a {
                offers.push("/Applications/iTerm.app".to_owned());
            }
            if b {
                offers.push("/Applications/iTerm2.app".to_owned());
            }
            assert(ts[0].1.filter(|p: Seq<char>| inst.contains(p)) =~= (if a { seq!["/Applications/iTerm.app"@] } else { Seq::empty() })
                + (if b { seq!["/Applications/iTerm2.app"@] } else { Seq::empty() })) by {
                reveal_with_fuel(Seq::<_>::filter, 3);
            }
        } else {
            let only = app_path_of(u);
            if installed_exec(installed, only.as_str()) {
                offers.push(only);
            }
            assert(ts[u as int].1.len() == 1);
            assert(ts[u as int].1.filter(|p: Seq<char>| inst.contains(p)) =~= if inst.contains(ts[u as int].1[0]) { seq![ts[u as int].1[0]] } else { Seq::empty() }) by {
                reveal_with_fuel(Seq::<_>::filter, 2);
            }
        }
        assert(strs(offers@) =~= before + ts[u as int].1.filter(|p: Seq<char>| inst.contains(p)));
        u += 1;
    }
    assert(ts.take(8) =~= ts);
    let last = if installed_exec(installed, "/System/Applications/Utilities/Terminal.app") {
        "/System/Applications/Utilities/Terminal.app".to_owned()
    } else {
        "Terminal".to_owned()
    };
    let ghost before_last = strs(offers@);
    offers.push(last);
    assert(strs(offers@) =~= fallback_offers(
        crate::editor::opt_view(term_program),
        crate::editor::opt_view(lc_terminal),
        strs(running@),
        inst,
    ));
    let ghost all = strs(offers@);
    let mut out: Vec<String> = Vec::new();
    let mut k: usize = 0;
    assert(strs(out@) =~= Seq::<Seq<char>>::empty());
    while k < offers.len()
        invariant
            k <= offers@.len(),
            all == strs(offers@),
            strs(out@) == push_all_candidates(Seq::empty(), all.take(k as int)),
        decreases offers.len() - k,
    {
        assert(all.take(k + 1).drop_last() =~= all.take(k as int));
        push_candidate_exec(&mut out, offers[k].as_str());
        k += 1;
    }
    assert(all.take(offers@.len() as int) =~= all);
    out
}

/// The single application path of common terminal `t` (1 ≤ t < 8).
fn app_path_of(t: usize) -> (r: String)
    requires
        1 <= t < 8,
    ensures
        mac_terminals()[t as int].1.len() == 1,
        r@ == mac_terminals()[t as int].1[0],
{
    if t == 1 { "/Applications/Warp.app".to_owned() }
    else if t == 2 { "/Applications/Ghostty.app".to_owned() }
    else if t == 3 { "/Applications/kitty.app".to_owned() }
    else if t == 4 { "/Applications/Alacritty.app".to_owned() }
    else if t == 5 { "/Applications/WezTerm.app".to_owned() }
    else if t == 6 { "/Applications/Hyper.app".to_owned() }
    else { "/Applications/Tabby.app".to_owned() }
}

/// Process names of the common terminals.
pub open spec fn terminal_names() -> Seq<Seq<char>> {
    Seq::new(8, |i: int| mac_terminals()[i].0)
}

/// The `pgrep` pattern matching any common terminal process.
pub fn terminal_pgrep_pattern() -> (r: String)
    ensures
        r@ == join(terminal_names(), "|"@),
{
    let names: Vec<String> = vec![
        "iTerm2".to_owned(), "Warp".to_owned(), "Ghostty".to_owned(), "kitty".to_owned(),
        "Alacritty".to_owned(), "WezTerm".to_owned(), "Hyper".to_owned(), "Tabby".to_owned(),
    ];
    assert(strs(names@) =~= terminal_names());
    let parts = to_char_vecs(names.as_slice());
    let bar = chars_of("|");
    string_of(&join_exec(&parts, bar.as_slice()))
}

/// Application paths whose existence the fallback chain depends on: every
/// common terminal's paths, then Terminal.app.
pub open spec fn probe_paths() -> Seq<Seq<char>> {
    seq![
        "/Applications/iTerm.app"@, "/Applications/iTerm2.app"@, "/Applications/Warp.app"@,
        "/Applications/Ghostty.app"@, "/Applications/kitty.app"@, "/Applications/Alacritty.app"@,
        "/Applications/WezTerm.app"@, "/Applications/Hyper.app"@, "/Applications/Tabby.app"@,
        terminal_app_path(),
    ]
}

/// The paths to test for existence before `terminal_fallbacks`.
pub fn terminal_probe_paths() -> (r: Vec<String>)
    ensures
        strs(r@) == probe_paths(),
        forall|i: int, j: int| 0 <= i < 8 && 0 <= j < mac_terminals()[i].1.len() ==>
            probe_paths().contains(#[trigger] mac_terminals()[i].1[j]),
        probe_paths().contains(terminal_app_path()),
{
    let r: Vec<String> = vec![
        "/Applications/iTerm.app".to_owned(), "/Applications/iTerm2.app".to_owned(), "/Applications/Warp.app".to_owned(),
        "/Applications/Ghostty.app".to_owned(), "/Applications/kitty.app".to_owned(), "/Applications/Alacritty.app".to_owned(),
        "/Applications/WezTerm.app".to_owned(), "/Applications/Hyper.app".to_owned(), "/Applications/Tabby.app".to_owned(),
        "/System/Applications/Utilities/Terminal.app".to_owned(),
    ];
    assert(strs(r@) =~= probe_paths());
    assert forall|i: int, j: int| 0 <= i < 8 && 0 <= j < mac_terminals()[i].1.len() implies
        probe_paths().contains(#[trigger] mac_terminals()[i].1[j]) by {
        assert(probe_paths()[0] == mac_terminals()[0].1[0]);
        assert(probe_paths()[1] == mac_terminals()[0].1[1]);
        if i > 0 {
            assert(mac_terminals()[i].1.len() == 1);
            assert(probe_paths()[i + 1] == mac_terminals()[i].1[j]);
        } else if j == 0 {
            assert(probe_paths()[0] == mac_terminals()[i].1[j]);
        } else {
            assert(probe_paths()[1] == mac_terminals()[i].1[j]);
        }
    }
    assert(probe_paths()[9] == terminal_app_path());
    r
}

// ───────────────────────── opening a terminal ─────────────────────────

/// One try at opening a terminal: an application by name or path
/// (`open -a`), or the application of a bundle id (`open -b`).
pub enum TerminalAttempt {
    App(String),
    Bundle(String),
}

/// The tries as plain values (`true` for a bundle id).
pub open spec fn attempt_view(a: TerminalAttempt) -> (bool, Seq<char>) {
    match a {
        TerminalAttempt::App(x) => (false, x@),
        TerminalAttempt::Bundle(x) => (true, x@),
    }
}

/// The tries in order: the explicit override (`STR_TERMINAL`, trimmed, when
/// not empty), the `.command` handler when it is a terminal, then every
/// fallback candidate.
pub open spec fn attempts_of(env_terminal: Option<Seq<char>>, handler: Option<Seq<char>>, fallbacks: Seq<Seq<char>>) -> Seq<(bool, Seq<char>)> {
    let first = match env_terminal {
        Some(t) => if crate::chars::trim(t).len() > 0 { seq![(false, crate::chars::trim(t))] } else { Seq::empty() },
        None => Seq::empty(),
    };
    let second = match handler {
        Some(b) => if handler_usable(b) { seq![(true, b)] } else { Seq::empty() },
        None => Seq::empty(),
    };
    first + second + Seq::new(fallbacks.len(), |i: int| (false, fallbacks[i]))
}

/// Lists the tries at opening a terminal (see `attempts_of`); the second
/// result is where the fallback candidates start.
pub fn terminal_attempts(env_terminal: Option<String>, handler: Option<String>, fallbacks: &Vec<String>) -> (r: (Vec<TerminalAttempt>, usize))
    ensures
        r.0@.len() == attempts_of(crate::editor::opt_view(env_terminal), crate::editor::opt_view(handler), strs(fallbacks@)).len(),
        forall|i: int| 0 <= i < r.0@.len() ==> attempt_view(#[trigger] r.0@[i])
            == attempts_of(crate::editor::opt_view(env_terminal), crate::editor::opt_view(handler), strs(fallbacks@))[i],
        r.1 + fallbacks@.len() == r.0@.len(),
{
    let ghost want = attempts_of(crate::editor::opt_view(env_terminal), crate::editor::opt_view(handler), strs(fallbacks@));
    let mut out: Vec<TerminalAttempt> = Vec::new();
    let ghost mut pre: Seq<(bool, Seq<char>)> = Seq::empty();
    match &env_terminal {
        Some(t) => {
            let tt = crate::chars::trim_exec(&chars_of(t.as_str()));
            if tt.len() > 0 {
                out.push(TerminalAttempt::App(string_of(&tt)));
                proof { pre = seq![(false, crate::chars::trim(t@))]; }
            }
        },
        None => {},
    }
    match &handler {
        Some(b) => {
            if terminal_handler_usable(b.as_str()) {
                out.push(TerminalAttempt::Bundle(b.clone()));
                proof { pre = pre + seq![(true, b@)]; }
            }
        },
        None => {},
    }
    let base = out.len();
    assert(pre.len() == base);
    assert(forall|i: int| 0 <= i < base ==> attempt_view(#[trigger] out@[i]) == pre[i]);
    let mut i: usize = 0;
    while i < fallbacks.len()
        invariant
            i <= fallbacks@.len(),
            out@.len() == base + i,
            forall|k: int| 0 <= k < base ==> attempt_view(#[trigger] out@[k]) == pre[k],
            forall|k: int| 0 <= k < i ==> attempt_view(#[trigger] out@[base + k]) == (false, fallbacks@[k]@),
        decreases fallbacks.len() - i,
    {
        out.push(TerminalAttempt::App(fallbacks[i].clone()));
        i += 1;
    }
    assert(want =~= pre + Seq::new(fallbacks@.len(), |k: int| (false, strs(fallbacks@)[k])));
    assert forall|k: int| 0 <= k < out@.len() implies attempt_view(#[trigger] out@[k]) == want[k] by {
        if k >= base {
            assert(attempt_view(out@[base + (k - base)]) == (false, fallbacks@[k - base]@));
        }
    }
    (out, base)
}

/// The failure text of a try (empty for a success).
pub open spec fn try_error(x: Result<(), String>) -> Option<Seq<char>> {
    match x {
        Ok(()) => None,
        Err(m) => Some(m@),
    }
}

/// The outcome after the first `n` tries: the first success wins;
/// otherwise the last failure among the fallback candidates (from index
/// `first_fallback`), or `未找到可用的终端` when none failed.
pub open spec fn outcome_upto(rs: Seq<Result<(), String>>, first_fallback: int, n: int) -> Result<int, Seq<char>>
    decreases n,
{
    if n <= 0 || n > rs.len() {
        Err("未找到可用的终端"@)
    } else {
        match outcome_upto(rs, first_fallback, n - 1) {
            Ok(i) => Ok(i),
            Err(e) => match try_error(rs[n - 1]) {
                None => Ok(n - 1),
                Some(m) => Err(if n - 1 >= first_fallback { m } else { e }),
            },
        }
    }
}

/// Decides the outcome of the tries made so far (see `outcome_upto`): the
/// index of the try that opened the terminal, or the failure to report.
pub fn terminal_outcome(results: &Vec<Result<(), String>>, first_fallback: usize) -> (r: Result<usize, String>)
    ensures
        match outcome_upto(results@, first_fallback as int, results@.len() as int) {
            Ok(i) => r == Ok::<usize, String>(i as usize),
            Err(m) => r matches Err(x) && x@ == m,
        },
{
    let mut acc: Result<usize, String> = Err("未找到可用的终端".to_owned());
    let mut i: usize = 0;
    while i < results.len()
        invariant
            i <= results@.len(),
            match outcome_upto(results@, first_fallback as int, i as int) {
                Ok(k) => acc == Ok::<usize, String>(k as usize) && k < i,
                Err(m) => acc matches Err(x) && x@ == m,
            },
        decreases results.len() - i,
    {
        if acc.is_err() {
            match &results[i] {
                Ok(()) => {
                    acc = Ok(i);
                },
                Err(m) => {
                    if i >= first_fallback {
                        acc = Err(m.clone());
                    }
                },
            }
        }
        i += 1;
    }
    acc
}

/// The terminal application named by each value of `TERM_PROGRAM` /
/// `LC_TERMINAL` the editor recognises.
pub open spec fn env_terminal_names() -> Seq<(Seq<char>, Seq<char>)> {
    seq![
        ("Apple_Terminal"@, "Terminal"@),
        ("iTerm.app"@, "iTerm"@),
        ("iTerm2"@, "iTerm"@),
        ("WarpTerminal"@, "Warp"@),
        ("ghostty"@, "Ghostty"@),
        ("Ghostty"@, "Ghostty"@),
        ("kitty"@, "kitty"@),
        ("WezTerm"@, "WezTerm"@),
    ]
}

proof fn lemma_push_all_prefix(list: Seq<Seq<char>>, offers: Seq<Seq<char>>, n: int)
    requires
        0 <= n <= offers.len(),
    ensures
        push_all_candidates(list, offers.take(n)).len() <= push_all_candidates(list, offers).len(),
        forall|i: int| 0 <= i < push_all_candidates(list, offers.take(n)).len() ==>
            #[trigger] push_all_candidates(list, offers)[i] == push_all_candidates(list, offers.take(n))[i],
    decreases offers.len(),
{
    if n < offers.len() {
        lemma_push_all_prefix(list, offers.drop_last(), n);
        assert(offers.drop_last().take(n) =~= offers.take(n));
    } else {
        assert(offers.take(n) =~= offers);
    }
}

proof fn lemma_plain_name(a: Seq<char>)
    requires
        a.len() > 0,
        a.last() != '/',
    ensures
        trim_end_matches(a, "/"@) == a,
{
    reveal_strlit("/");
    if crate::chars::ends_with(a, "/"@) {
        assert(a.subrange(a.len() - 1, a.len() as int)[0] == a.last());
    }
}

/// The first offer, when it is a plain name, is the first candidate.
proof fn lemma_first_offer_first(offers: Seq<Seq<char>>)
    requires
        offers.len() > 0,
        offers[0].len() > 0,
        offers[0].last() != '/',
    ensures
        push_all_candidates(Seq::empty(), offers).len() > 0,
        push_all_candidates(Seq::empty(), offers)[0] == offers[0],
{
    lemma_push_all_prefix(Seq::empty(), offers, 1);
    let one = offers.take(1);
    assert(one.drop_last() =~= Seq::<Seq<char>>::empty());
    assert(one.last() == offers[0]);
    lemma_plain_name(offers[0]);
    assert(push_all_candidates(Seq::<Seq<char>>::empty(), one.drop_last()) =~= Seq::<Seq<char>>::empty());
    assert(push_all_candidates(Seq::<Seq<char>>::empty(), one) =~= seq![offers[0]]);
}

/// The terminal the editor was started from comes first: a recognised
/// `TERM_PROGRAM` value (say `WarpTerminal`) makes its application (`Warp`)
/// the first fallback candidate, whatever else runs or is installed; so
/// does a recognised `LC_TERMINAL` value when `TERM_PROGRAM` is unset.
pub proof fn law_env_terminal_first(k: int, lc_terminal: Option<Seq<char>>, running: Seq<Seq<char>>, installed: Set<Seq<char>>)
    requires
        0 <= k < env_terminal_names().len(),
    ensures
        fallback_candidates(Some(env_terminal_names()[k].0), lc_terminal, running, installed).len() > 0,
        fallback_candidates(Some(env_terminal_names()[k].0), lc_terminal, running, installed)[0] == env_terminal_names()[k].1,
        fallback_candidates(None, Some(env_terminal_names()[k].0), running, installed).len() > 0,
        fallback_candidates(None, Some(env_terminal_names()[k].0), running, installed)[0] == env_terminal_names()[k].1,
{
    reveal_strlit("Apple_Terminal");
    reveal_strlit("iTerm.app");
    reveal_strlit("iTerm2");
    reveal_strlit("WarpTerminal");
    reveal_strlit("ghostty");
    reveal_strlit("Ghostty");
    reveal_strlit("kitty");
    reveal_strlit("WezTerm");
    reveal_strlit("Terminal");
    reveal_strlit("iTerm");
    reveal_strlit("Warp");
    let (v, app) = env_terminal_names()[k];
    if k == 0 {
    } else if k == 1 {
        assert("iTerm.app"@.len() != "Apple_Terminal"@.len());
    } else if k == 2 {
        assert("iTerm2"@.len() != "Apple_Terminal"@.len());
        assert("iTerm2"@.len() != "iTerm.app"@.len());
    } else if k == 3 {
        assert("WarpTerminal"@.len() != "Apple_Terminal"@.len());
        assert("WarpTerminal"@.len() != "iTerm.app"@.len());
        assert("WarpTerminal"@.len() != "iTerm2"@.len());
    } else if k == 4 {
        assert("ghostty"@.len() != "Apple_Terminal"@.len());
        assert("ghostty"@.len() != "iTerm.app"@.len());
        assert("ghostty"@.len() != "iTerm2"@.len());
        assert("ghostty"@.len() != "WarpTerminal"@.len());
    } else if k == 5 {
        assert("Ghostty"@.len() != "Apple_Terminal"@.len());
        assert("Ghostty"@.len() != "iTerm.app"@.len());
        assert("Ghostty"@.len() != "iTerm2"@.len());
        assert("Ghostty"@.len() != "WarpTerminal"@.len());
        assert("Ghostty"@[0] != "ghostty"@[0]);
    } else if k == 6 {
        assert("kitty"@.len() != "Apple_Terminal"@.len());
        assert("kitty"@.len() != "iTerm.app"@.len());
        assert("kitty"@.len() != "iTerm2"@.len());
        assert("kitty"@.len() != "WarpTerminal"@.len());
        assert("kitty"@.len() != "ghostty"@.len());
        assert("kitty"@.len() != "Ghostty"@.len());
    } else if k == 7 {
        assert("WezTerm"@.len() != "Apple_Terminal"@.len());
        assert("WezTerm"@.len() != "iTerm.app"@.len());
        assert("WezTerm"@.len() != "iTerm2"@.len());
        assert("WezTerm"@.len() != "WarpTerminal"@.len());
        assert("WezTerm"@[0] != "ghostty"@[0]);
        assert("WezTerm"@[0] != "Ghostty"@[0]);
        assert("WezTerm"@.len() != "kitty"@.len());
    }
    assert(term_program_app(v) == Some(app));
    assert(app.len() > 0 && app.last() != '/');
    let o1 = fallback_offers(Some(v), lc_terminal, running, installed);
    assert(o1[0] == app);
    lemma_first_offer_first(o1);
    let o2 = fallback_offers(None, Some(v), running, installed);
    assert(env_offer(None::<Seq<char>>) =~= Seq::<Seq<char>>::empty());
    assert(o2[0] == app);
    lemma_first_offer_first(o2);
}

} // verus!
