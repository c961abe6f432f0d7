use str_gui::batch::{batch_outcomes, batch_summary, reveal_outcome};
use str_gui::groups::entry_move_plan;
use str_gui::places::import_plan;
use str_gui::registry::{
    copy_registrations, group_item_landed, move_registration, paste_registration, place_branch, place_group, place_single,
    register_landed, register_moved_branch, rename_registration, rewrite_order, set_folder_count, unregister,
    GroupMove, LandedItem, Landing,
};
use str_gui::terminal::{terminal_attempts, terminal_outcome, TerminalAttempt};
use str_gui::batch::{
    folder_paste_outcome, progress_text, push_recent_body, recent_paths, rename_lookup, reveal_groups, WriteSession,
    FLUSH_EVERY, TRASH_BATCH,
};
use str_gui::clip::{
    branch_copy_message, clip_landing, clip_precheck, derive_clip, folder_paste_step, ClipItem, FolderPaste,
};
use str_gui::editor::Editor;
use str_gui::groups::{
    content_entries_exec, entry_move_precheck, group_item_plan, group_move_precheck, insert_group, insert_single,
    move_summary, moved_entry_highlight, resolve_drop, select_landed, ItemPlan,
};
use str_gui::model::{Entry, KeySet, Meta, Scan, Visit};
use str_gui::places::{expand_dir_chain, nest_message, nest_plan, plan_import_names, title_of_dir, toggle_dir};
use str_gui::rename::batch_rename_plan;
use str_gui::rows::{build_entry_rows_for, DiskChild, FolderListing};
use str_gui::terminal::{
    parse_pgrep_names, push_candidate_exec, terminal_fallbacks, terminal_handler_usable, terminal_pgrep_pattern,
    terminal_probe_paths,
};

fn s(x: &str) -> String {
    x.to_string()
}

fn v(xs: &[&str]) -> Vec<String> {
    xs.iter().map(|x| s(x)).collect()
}

fn ent(path: &str, role: &str) -> Entry {
    Entry { path: s(path), role: s(role), id: None, branch_type: None, title: None, note: None, size: None, count: None, sha256: None, order: None }
}

fn file(n: i64) -> LandedItem {
    LandedItem { is_dir: false, n, sha256: Some(s("5e3a")) }
}

fn folder(n: i64) -> LandedItem {
    LandedItem { is_dir: true, n, sha256: None }
}

fn paths_of(es: &[Entry]) -> Vec<String> {
    es.iter().map(|e| e.path.clone()).collect()
}

/// /b.str (root, registers a.md, docs/, the branch `br` and z.png) and
/// /b.str/br (registers x.md as an asset; untitled).
fn small_scan() -> Scan {
    let root = Meta {
        id: Some(s("r")),
        is_root: true,
        branch_type: None,
        title: Some(s("根")),
        entries: vec![ent("a.md", "payload"), ent("docs", "dir"), ent("br", "node"), ent("z.png", "asset")],
    };
    let br = Meta { id: Some(s("b")), is_root: false, branch_type: None, title: None, entries: vec![ent("x.md", "asset")] };
    Scan {
        visits: vec![
            Visit { parent: None, depth: 0, rel: s(""), dir: v(&["b.str"]), meta: Some(root) },
            Visit { parent: Some(0), depth: 1, rel: s("br"), dir: v(&["b.str", "br"]), meta: Some(br) },
        ],
        root_index: Some(0),
    }
}

fn small_editor() -> Editor {
    let mut e = Editor::new();
    e.open_scan(small_scan());
    e
}

#[test]
fn batch_rename_renames_names_and_reports_conflicts() {
    let items = v(&["a.md", "b.md"]);
    let reg = v(&["a.md", "b.md", "c.md"]);
    assert_eq!(
        batch_rename_plan(1, "", "", "x-", "", &items, &reg),
        Ok(vec![(s("a.md"), s("x-a.md")), (s("b.md"), s("x-b.md"))])
    );
    assert_eq!(
        batch_rename_plan(1, "", "", "", "_v2", &v(&["a.md", "notes"]), &reg),
        Ok(vec![(s("a.md"), s("a_v2.md")), (s("notes"), s("notes_v2"))])
    );
    // Only the changed pairs are returned.
    assert_eq!(
        batch_rename_plan(0, " a ", "q", "", "", &v(&["a.md", "c.md"]), &reg),
        Ok(vec![(s("a.md"), s("q.md"))])
    );
    assert_eq!(
        batch_rename_plan(0, "a", "c", "", "", &items, &reg),
        Err(s("名称冲突：「c.md」已存在。"))
    );
    // A name still held by another registered item conflicts.
    assert_eq!(
        batch_rename_plan(0, "a", "b", "", "", &v(&["b.md", "a.md"]), &v(&["a.md", "b.md"])),
        Err(s("名称冲突：「b.md」已存在。"))
    );
    assert_eq!(batch_rename_plan(0, "  ", "x", "", "", &items, &reg), Err(s("查找内容不能为空。")));
    assert_eq!(batch_rename_plan(1, "", "", "", "", &items, &reg), Err(s("前缀与后缀不能同时为空。")));
    assert_eq!(batch_rename_plan(1, "", "", "p", "", &v(&["a.md"]), &reg), Err(s("批量重新命名需要选中至少 2 个条目。")));
    assert_eq!(batch_rename_plan(0, "a.md", "", "", "", &items, &reg), Err(s("名称无效：「」（a.md）。")));
    assert_eq!(batch_rename_plan(1, "", "", ".", "", &items, &reg), Err(s("名称无效：「.a.md」（a.md）。")));
    assert_eq!(batch_rename_plan(0, "zz", "y", "", "", &items, &reg), Err(s("没有需要重命名的条目。")));
}

fn open_rows() -> Vec<str_gui::entries::VisibleEntry> {
    let mut e = small_editor();
    e.expanded_dirs.insert(&s("/b.str/docs"));
    let ls = vec![FolderListing {
        dir: v(&["b.str", "docs"]),
        children: vec![
            DiskChild { name: s("img"), is_dir: true, size: None },
            DiskChild { name: s("note.txt"), is_dir: false, size: Some(3) },
        ],
    }];
    build_entry_rows_for(&e, 0, &ls)
}

#[test]
fn drops_resolve_to_folders_or_positions() {
    let rows = open_rows();
    // a.md, docs, docs/img, docs/note.txt, z.png
    assert_eq!(rows.len(), 5);
    assert_eq!(resolve_drop(&rows, true, 0, false, false), (None, None));
    assert_eq!(resolve_drop(&rows, false, 9, false, false), (None, None));
    assert_eq!(resolve_drop(&rows, false, 1, false, true), (Some(v(&["b.str", "docs"])), None));
    assert_eq!(resolve_drop(&rows, false, 1, false, false), (None, Some(1)));
    assert_eq!(resolve_drop(&rows, false, 4, true, false), (None, Some(3)));
    assert_eq!(resolve_drop(&rows, false, 3, true, false), (None, None));
    assert_eq!(resolve_drop(&rows, false, 2, false, true), (Some(v(&["b.str", "docs", "img"])), None));
}

#[test]
fn group_landing_keeps_every_entry() {
    let seq = vec![ent("a", "payload"), ent("b", "payload"), ent("c", "dir"), ent("d", "asset")];
    let out = insert_group(seq, &v(&["d", "b", "x"]), 1);
    assert_eq!(paths_of(&out), v(&["a", "d", "b", "c"]));
    let seq = vec![ent("a", "payload"), ent("b", "payload"), ent("c", "dir"), ent("d", "asset")];
    let out = insert_group(seq, &v(&["d", "b"]), 9);
    assert_eq!(paths_of(&out), v(&["a", "c", "d", "b"]));

    let two = || vec![ent("a", "payload"), ent("b", "payload")];
    assert_eq!(paths_of(&insert_single(two(), ent("z", "asset"), Some(1))), v(&["a", "z", "b"]));
    assert_eq!(paths_of(&insert_single(two(), ent("z", "asset"), None)), v(&["a", "b", "z"]));
    assert_eq!(paths_of(&insert_single(two(), ent("z", "asset"), Some(7))), v(&["a", "b", "z"]));

    let m = small_scan().visits.remove(0).meta.unwrap();
    assert_eq!(paths_of(&content_entries_exec(&m.entries)), v(&["a.md", "docs", "z.png"]));
}

#[test]
fn group_move_summaries() {
    assert_eq!(move_summary("源", "目", "", &vec![], &vec![]), Err(s("无条目被移动")));
    assert_eq!(move_summary("源", "目", "", &vec![], &v(&["a：失败"])), Err(s("a：失败")));
    assert_eq!(move_summary("源", "目", "a.md", &v(&["a.md"]), &vec![]), Ok(s("已从「源」移动「a.md」→「目」。")));
    assert_eq!(
        move_summary("源", "目", "a", &v(&["a", "b", "c", "d"]), &v(&["x：失败", "y：失败"])),
        Ok(s("已从「源」移动 4 项 →「目」：a、b、c…（2 项失败：x：失败；y：失败）"))
    );
    assert_eq!(
        move_summary("源", "目", "a", &v(&["a", "b"]), &vec![]),
        Ok(s("已从「源」移动 2 项 →「目」：a、b"))
    );
}

#[test]
fn terminal_candidates_follow_the_fallback_chain() {
    assert!(!terminal_handler_usable("com.apple.TextEdit"));
    assert!(!terminal_handler_usable("COM.MICROSOFT.VSCODE"));
    assert!(terminal_handler_usable("com.googlecode.iterm2"));
    assert_eq!(parse_pgrep_names("123 Warp\n456 kitty extra\n789\n\n  9\tAlacritty"), v(&["Warp", "kitty", "Alacritty"]));
    let got = terminal_fallbacks(
        Some(s("iTerm.app")),
        None,
        &v(&["Warp", "KITTY"]),
        &v(&["/Applications/Warp.app", "/Applications/iTerm2.app", "/System/Applications/Utilities/Terminal.app"]),
    );
    assert_eq!(
        got,
        v(&[
            "iTerm",
            "/Applications/Warp.app",
            "kitty",
            "/Applications/iTerm2.app",
            "/System/Applications/Utilities/Terminal.app",
        ])
    );
    assert_eq!(terminal_fallbacks(None, Some(s("unknown")), &vec![], &vec![]), v(&["Terminal"]));
    let mut list = v(&["Warp"]);
    push_candidate_exec(&mut list, "warp/");
    push_candidate_exec(&mut list, "///");
    push_candidate_exec(&mut list, "/Applications/kitty.app/");
    assert_eq!(list, v(&["Warp", "/Applications/kitty.app"]));
}

#[test]
fn write_session_batches_trash_and_write_backs() {
    let mut w = WriteSession::new();
    assert!(!w.needs_flush());
    for i in 0..TRASH_BATCH - 1 {
        assert!(!w.queue_trash(&format!("e{i}")));
    }
    assert!(w.queue_trash("last"));
    let (done, due) = w.trash_done();
    assert_eq!(done.len(), TRASH_BATCH);
    assert_eq!(done[0], "e0");
    assert_eq!(done[TRASH_BATCH - 1], "last");
    assert_eq!(due, TRASH_BATCH >= FLUSH_EVERY);
    assert!(w.trash_queue.is_empty());
    assert!(w.needs_flush());
    w.flushed();
    assert!(!w.needs_flush());
    for _ in 0..FLUSH_EVERY - 1 {
        assert!(!w.changed());
    }
    assert!(w.changed());
    assert_eq!(w.dirty, FLUSH_EVERY);
}

#[test]
fn reveal_groups_share_parents() {
    let p = |xs: &[&str]| v(xs);
    let paths = vec![p(&["a", "b", "x"]), p(&["a", "b", "y"]), p(&["a", "c", "z"]), p(&["a", "b", "w"]), p(&[])];
    let gs = reveal_groups(&paths);
    assert_eq!(
        gs,
        vec![
            vec![p(&["a", "b", "x"]), p(&["a", "b", "y"])],
            vec![p(&["a", "c", "z"])],
            vec![p(&["a", "b", "w"])],
            vec![p(&[])],
        ]
    );
    let flat: Vec<Vec<String>> = gs.into_iter().flatten().collect();
    assert_eq!(flat, paths);
    assert!(reveal_groups(&vec![]).is_empty());
}

#[test]
fn recent_list_puts_newest_first_and_caps() {
    assert_eq!(push_recent_body("b\n a \n\nb\nc\n", "x"), "x\nb\na\nc\n");
    assert_eq!(push_recent_body("", "x"), "x\n");
    let many: String = (0..15).map(|i| format!("p{i}\n")).collect();
    let body = push_recent_body(&many, "new");
    assert_eq!(body.lines().count(), 10);
    assert!(body.starts_with("new\np0\n") && body.ends_with("p8\n"));
    assert_eq!(recent_paths("b\nq\n a\nb\n", &v(&["a", "b"])), v(&["b", "a"]));
    let all: Vec<String> = (0..15).map(|i| format!("p{i}")).collect();
    assert_eq!(recent_paths(&many, &all).len(), 10);
}

#[test]
fn clipboard_items_are_recognised_and_land() {
    let scan = small_scan();
    let c = derive_clip(&scan, &v(&["b.str", "br", "docs", "n.txt"]), true, false).unwrap();
    assert_eq!(c.name, "n.txt");
    assert_eq!(c.role, "payload");
    assert!(c.is_cut);
    assert_eq!(c.src_path, v(&["b.str", "br", "docs", "n.txt"]));
    let c = derive_clip(&scan, &v(&["b.str", "br", "x.md"]), false, false).unwrap();
    assert_eq!(c.role, "asset");
    let c = derive_clip(&scan, &v(&["b.str", "docs"]), false, true).unwrap();
    assert_eq!(c.role, "dir");
    assert!(derive_clip(&scan, &v(&["elsewhere", "x"]), false, false).is_none());

    assert_eq!(clip_precheck(false, true, true).as_deref(), Some("剪贴板中的源条目已不存在"));
    assert_eq!(clip_precheck(true, true, true).as_deref(), Some("源与目标是同一分支"));
    assert_eq!(clip_precheck(true, false, true), None);

    let item = |name: &str, role: &str, cut: bool| ClipItem { src_path: v(&["b.str", name]), name: s(name), role: s(role), is_cut: cut };
    let l = clip_landing(&item("a.md", "payload", false), &v(&["a.md"]), 1, "源", "目").unwrap();
    assert_eq!((l.name.as_str(), l.role.as_str()), ("a 副本.md", "payload"));
    assert_eq!(l.message, "已从剪贴板粘贴「a 副本.md」→「目」。");
    let l = clip_landing(&item("docs", "dir", true), &vec![], 1, "源", "目").unwrap();
    assert_eq!(l.message, "已从「源」移动「docs/」→「目」。");
    let l = clip_landing(&item("x", "node", true), &v(&["x"]), 2, "源", "目").unwrap();
    assert_eq!((l.name.as_str(), l.role.as_str()), ("x", "branch"));
    assert_eq!(l.message, "已从「源」移动分支「x」→「目」。");
    let l = clip_landing(&item("x", "branch", true), &vec![], 0, "源", "目").unwrap();
    assert_eq!(l.role, "node");
    let l = clip_landing(&item("m.md", "asset", true), &vec![], 0, "源", "目").unwrap();
    assert_eq!(l.message, "已从「源」移动「m.md」→「目」。");
    assert!(matches!(clip_landing(&item("w", "weird", false), &vec![], 0, "源", "目"), Err(m) if m == "暂不支持 role = weird 的条目"));
    assert_eq!(branch_copy_message("x", "id2", "目"), "已从剪贴板粘贴分支「x」→「目」（新 id「id2」）。");

    assert!(matches!(folder_paste_step(&item("x", "node", false), true, false, &vec![]), FolderPaste::Refuse(m) if m == "x：分支不能粘贴到内容文件夹"));
    assert!(matches!(folder_paste_step(&item("a.md", "payload", false), false, false, &vec![]), FolderPaste::Refuse(m) if m == "a.md：源条目已不存在"));
    assert!(matches!(folder_paste_step(&item("a.md", "payload", true), true, true, &vec![]), FolderPaste::Skip));
    assert!(matches!(folder_paste_step(&item("a.md", "payload", false), true, true, &v(&["a.md"])), FolderPaste::Land(n) if n == "a 副本.md"));
}

#[test]
fn folder_chains_titles_and_imports() {
    let mut e = small_editor();
    expand_dir_chain(&mut e, &v(&["b.str", "br"]), "docs/img/");
    assert!(e.expanded_dirs.contains(&s("/b.str/br/docs")));
    assert!(e.expanded_dirs.contains(&s("/b.str/br/docs/img")));
    assert_eq!(e.expanded_dirs.len(), 2);
    expand_dir_chain(&mut e, &v(&["b.str", "br"]), "");
    assert_eq!(e.expanded_dirs.len(), 2);

    let rows = open_rows();
    let mut f = small_editor();
    toggle_dir(&mut f, &rows, 1);
    assert!(f.expanded_dirs.contains(&s("/b.str/docs")));
    toggle_dir(&mut f, &rows, 1);
    assert_eq!(f.expanded_dirs.len(), 0);
    toggle_dir(&mut f, &rows, 0);
    assert_eq!(f.expanded_dirs.len(), 0);

    assert_eq!(title_of_dir(&e, &v(&["b.str"])), "根");
    assert_eq!(title_of_dir(&e, &v(&["b.str", "br"])), "br");
    assert_eq!(title_of_dir(&e, &v(&["b.str", "zz"])), "zz");
    assert_eq!(title_of_dir(&e, &vec![]), "根分支");

    assert_eq!(plan_import_names(&v(&["a.md"]), &v(&["a.md", "a.md", "b.md"])), v(&["a 副本.md", "a 副本 2.md", "b.md"]));
    assert_eq!(nest_message("x", "甲", "乙"), "已把分支「x」从「甲」移入「乙」下。");
}

#[test]
fn nesting_plans_and_refusals() {
    let mut scan = small_scan();
    scan.visits.push(Visit {
        parent: Some(0),
        depth: 1,
        rel: s("other"),
        dir: v(&["b.str", "other"]),
        meta: Some(Meta { id: None, is_root: false, branch_type: None, title: Some(s("另一个")), entries: vec![] }),
    });
    let mut e = Editor::new();
    e.open_scan(scan);
    match nest_plan(&e, 1, 2) {
        Ok(p) => {
            assert_eq!(p.name, "br");
            assert_eq!(p.new_role, "branch");
            assert_eq!(p.target_title, "另一个");
            assert_eq!(p.src_dir, v(&["b.str", "br"]));
            assert_eq!(p.target_dir, v(&["b.str", "other"]));
            assert_eq!(p.src_parent_dir, v(&["b.str"]));
        }
        Err(m) => panic!("unexpected refusal {m}"),
    }
    assert!(matches!(nest_plan(&e, 0, 1), Err(m) if m == "ROOT 不可拖动"));
    assert!(matches!(nest_plan(&e, 1, 1), Err(m) if m == "分支无效"));
    assert!(matches!(nest_plan(&Editor::new(), 1, 2), Err(m) if m == "未打开 bundle"));
}

#[test]
fn key_sets_behave_as_sets() {
    let mut k = KeySet::new();
    k.insert(&s("a"));
    k.insert(&s("a"));
    k.insert(&s("b"));
    assert_eq!(k.len(), 2);
    k.remove(&s("a"));
    assert!(!k.contains(&s("a")) && k.contains(&s("b")));
    k.insert(&s("c"));
    k.retain_listed(&v(&["c", "z"]));
    assert!(k.contains(&s("c")) && !k.contains(&s("b")));
    k.clear();
    assert_eq!(k.len(), 0);
}

#[test]
fn terminal_probes_cover_the_known_terminals() {
    assert_eq!(terminal_pgrep_pattern(), "iTerm2|Warp|Ghostty|kitty|Alacritty|WezTerm|Hyper|Tabby");
    let paths = terminal_probe_paths();
    assert_eq!(paths.len(), 10);
    assert_eq!(paths[0], "/Applications/iTerm.app");
    assert_eq!(paths[9], "/System/Applications/Utilities/Terminal.app");
    // Everything probed is something the fallback chain can pick.
    let all = terminal_fallbacks(None, None, &vec![], &paths);
    assert_eq!(all, paths);
}

#[test]
fn group_moves_decide_each_item() {
    let e = small_editor();
    assert_eq!(group_move_precheck(&e, 0, 0).as_deref(), Some("源与目标是同一分支"));
    assert_eq!(group_move_precheck(&e, 0, 5).as_deref(), Some("分支无效"));
    assert_eq!(group_move_precheck(&e, 1, 0), None);
    assert_eq!(group_move_precheck(&Editor::new(), 1, 0).as_deref(), Some("未打开 bundle"));

    let src = v(&["b.str", "br"]);
    let dst = v(&["b.str"]);
    let fs = |p: &str| {
        let mut c = src.clone();
        c.extend(p.split('/').map(s));
        c
    };
    let plan = |path: &str, role: Option<&str>, exists: bool, is_dir: bool, dst_dir: &Vec<String>, existing: &[&str], on_disk: &[&str]| {
        group_item_plan(&s(path), &role.map(s), exists, is_dir, &fs(path), dst_dir, &v(existing), &v(on_disk))
    };
    assert!(matches!(plan("x", Some("branch"), true, true, &dst, &[], &[]), ItemPlan::Refuse(m) if m == "x：分支条目不能作为内容移动"));
    assert!(matches!(plan("x.md", Some("asset"), true, false, &dst, &["x.md"], &[]), ItemPlan::Move(n) if n == "x 副本.md"));
    assert!(matches!(plan("docs", Some("dir"), true, true, &dst, &[], &[]), ItemPlan::Move(n) if n == "docs"));
    // A registered folder cannot enter itself, and stays when already there.
    let inner = v(&["b.str", "br", "docs", "deep"]);
    assert!(matches!(plan("docs", Some("dir"), true, true, &inner, &[], &[]), ItemPlan::Refuse(m) if m == "docs：不能把文件夹移入其自身内部"));
    assert!(matches!(plan("docs", Some("dir"), true, true, &src, &[], &[]), ItemPlan::Skip));
    // Folder children use their file name and avoid what is on disk too.
    assert!(matches!(plan("docs/a.txt", None, true, false, &dst, &["b.md"], &["a.txt"]), ItemPlan::Move(n) if n == "a 副本.txt"));
    assert!(matches!(plan("docs/gone.txt", None, false, false, &dst, &[], &[]), ItemPlan::Refuse(m) if m == "docs/gone.txt：源文件不存在"));

    assert_eq!(entry_move_precheck(&e, 0, 1), None);
    assert_eq!(entry_move_precheck(&e, 0, 2).as_deref(), Some("源或目标分支无效"));
    assert_eq!(entry_move_precheck(&Editor::new(), 0, 0).as_deref(), Some("未打开 bundle"));
    let root = v(&["b.str"]);
    assert_eq!(moved_entry_highlight(true, &root, &Some(v(&["b.str", "docs", "img"])), "p.png"), "docs/img/p.png");
    assert_eq!(moved_entry_highlight(false, &root, &Some(v(&["b.str", "docs"])), "p.png"), "p.png");
    assert_eq!(moved_entry_highlight(true, &root, &None, "p.png"), "p.png");
    assert_eq!(moved_entry_highlight(true, &root, &Some(v(&["b.str"])), "p.png"), "/p.png");
}

#[test]
fn landed_items_become_the_selection() {
    let mut e = small_editor();
    e.entry_anchor = Some(3);
    select_landed(&mut e, &v(&["b.str"]), &None, &vec![]);
    assert_eq!(e.entry_anchor, Some(3));
    select_landed(&mut e, &v(&["b.str"]), &Some(v(&["b.str", "docs"])), &v(&["a.md", "b.md"]));
    assert!(e.entry_multi.contains(&s("docs/a.md")) && e.entry_multi.contains(&s("docs/b.md")));
    assert_eq!(e.entry_multi.len(), 2);
    assert_eq!(e.entry_anchor, None);
    assert_eq!(e.selected_entry_path.as_deref(), Some("docs/a.md"));
    select_landed(&mut e, &v(&["b.str"]), &None, &v(&["z.md"]));
    assert_eq!(e.entry_multi.len(), 1);
    assert_eq!(e.selected_entry_path.as_deref(), Some("z.md"));
}

#[test]
fn batch_item_helpers() {
    let renames = vec![(s("a.md"), s("x-a.md")), (s("b.md"), s("x-b.md")), (s("a.md"), s("later"))];
    assert_eq!(rename_lookup(&renames, &s("a.md")), Ok(s("x-a.md")));
    assert_eq!(rename_lookup(&renames, &s("c.md")), Err(s("重命名映射缺失：c.md")));
    assert_eq!(folder_paste_outcome(true, "n.txt", "docs"), (s("已移动 n.txt（→ docs/n.txt）"), s("docs/n.txt")));
    assert_eq!(folder_paste_outcome(false, "n.txt", "docs"), (s("已粘贴 n.txt（→ docs/n.txt）"), s("docs/n.txt")));
    assert_eq!(progress_text("批量删除中", 0, 12, "a.md"), "批量删除中 1/12 · a.md");
}

#[test]
fn rename_names_never_collide() {
    // "pa" moves away first, so "a" may take its name.
    let reg = v(&["a", "pa"]);
    assert_eq!(
        batch_rename_plan(1, "", "", "p", "", &v(&["pa", "a"]), &reg),
        Ok(vec![(s("pa"), s("ppa")), (s("a"), s("pa"))])
    );
    // In the other order "pa" is still taken when "a" asks for it.
    assert_eq!(batch_rename_plan(1, "", "", "p", "", &v(&["a", "pa"]), &reg), Err(s("名称冲突：「pa」已存在。")));
}

#[test]
fn recent_newest_first_after_opening() {
    let body = push_recent_body("a\nb\n", "c");
    assert_eq!(recent_paths(&body, &v(&["a", "b", "c"])), v(&["c", "a", "b"]));
    // An existing bundle reopened comes first; its older line is dropped.
    let again = push_recent_body(&body, "b");
    assert_eq!(again, "b\nc\na\n");
    assert_eq!(push_recent_body("p\n", "p"), "p\n");
    assert_eq!(recent_paths(&again, &v(&["a", "b", "c"])), v(&["b", "c", "a"]));
}

fn meta_with(entries: Vec<Entry>) -> Meta {
    Meta { id: Some(s("m")), is_root: false, branch_type: None, title: Some(s("t")), entries }
}

fn sized(path: &str, role: &str, size: Option<i64>, count: Option<i64>, title: Option<&str>) -> Entry {
    Entry { path: s(path), role: s(role), id: Some(s("id")), branch_type: None, title: title.map(s), note: None, size, count, sha256: None, order: None }
}

#[test]
fn single_moves_refuse_missing_sources() {
    let e = small_editor();
    assert_eq!(entry_move_plan(&e, 0, 1, &s("docs/a.txt"), true, &v(&["a.txt"])), Ok(s("a 副本.txt")));
    assert_eq!(entry_move_plan(&e, 0, 1, &s("a.md"), false, &vec![]), Err(s("源文件不存在")));
    assert_eq!(entry_move_plan(&e, 0, 7, &s("a.md"), true, &vec![]), Err(s("源或目标分支无效")));
    assert_eq!(entry_move_plan(&Editor::new(), 0, 1, &s("a.md"), true, &vec![]), Err(s("未打开 bundle")));
}

#[test]
fn imports_need_something_to_import() {
    let m = meta_with(vec![sized("a.md", "payload", Some(1), None, None)]);
    assert_eq!(import_plan(&m, &vec![None, None]), Err(s("没有可导入的文件")));
    assert_eq!(import_plan(&m, &vec![]), Err(s("没有可导入的文件")));
    assert_eq!(import_plan(&m, &vec![Some(s("a.md")), None, Some(s("a.md"))]), Ok(v(&["a 副本.md", "a 副本 2.md"])));
}

#[test]
fn registrations_follow_moves_pastes_and_renames() {
    let paths = |m: &Meta| m.entries.iter().map(|e| e.path.clone()).collect::<Vec<_>>();
    let mut src = meta_with(vec![
        sized("a.md", "asset", Some(3), None, Some("甲")),
        sized("docs", "dir", None, Some(2), None),
        sized("b.md", "payload", Some(5), None, None),
    ]);
    src.entries[0].note = Some(s("备注"));
    let mut dst = meta_with(vec![sized("z.md", "payload", Some(1), None, None)]);
    assert!(move_registration(&mut src, &mut dst, &s("a.md"), &s("a 副本.md"), &file(9)));
    assert_eq!(paths(&src), v(&["docs", "b.md"]));
    assert_eq!(paths(&dst), v(&["z.md", "a 副本.md"]));
    let landed = &dst.entries[1];
    assert_eq!((landed.role.as_str(), landed.size, landed.count, landed.title.as_deref()), ("asset", Some(9), None, Some("甲")));
    assert_eq!(landed.id, None);
    assert_eq!((landed.note.as_deref(), landed.sha256.as_deref()), (Some("备注"), Some("5e3a")));
    assert!(move_registration(&mut src, &mut dst, &s("docs"), &s("docs"), &folder(4)));
    assert_eq!((dst.entries[2].role.as_str(), dst.entries[2].count, dst.entries[2].size), ("dir", Some(4), None));
    assert_eq!(dst.entries[2].sha256, None);
    assert!(!move_registration(&mut src, &mut dst, &s("nope"), &s("x"), &file(1)));
    assert_eq!(paths(&src), v(&["b.md"]));
    // Re-registering a name replaces it in place.
    register_landed(&mut dst, &s("z.md"), "payload", &None, &None, &file(7));
    assert_eq!(paths(&dst), v(&["z.md", "a 副本.md", "docs"]));
    assert_eq!(dst.entries[0].size, Some(7));

    let clip = ClipItem { src_path: v(&["b.str", "b.md"]), name: s("b.md"), role: s("payload"), is_cut: true };
    assert_eq!(paste_registration(&mut dst, &mut src, &clip, &s("b.md"), &file(5), true), Ok(()));
    assert!(src.entries.is_empty());
    assert_eq!(paths(&dst), v(&["z.md", "a 副本.md", "docs", "b.md"]));
    let node = ClipItem { src_path: v(&["b.str", "x"]), name: s("x"), role: s("node"), is_cut: true };
    assert_eq!(paste_registration(&mut dst, &mut src, &node, &s("x"), &file(0), true), Err(s("暂不支持 role = node 的条目")));
    assert_eq!(dst.entries.len(), 4);

    assert_eq!(rename_registration(&mut dst, &s("z.md"), &s("y.md")), Ok(()));
    assert_eq!(paths(&dst), v(&["a 副本.md", "docs", "b.md", "y.md"]));
    assert_eq!(rename_registration(&mut dst, &s("none"), &s("q")), Err(s("未找到条目")));

    unregister(&mut dst, &v(&["docs", "y.md", "gone"]));
    assert_eq!(paths(&dst), v(&["a 副本.md", "b.md"]));
    assert_eq!(dst.title.as_deref(), Some("t"));
}

#[test]
fn trash_unregisters_only_after_success() {
    let mut w = WriteSession::new();
    let mut m = meta_with(vec![sized("a.md", "payload", None, None, None), sized("b.md", "payload", None, None, None)]);
    w.queue_trash("a.md");
    assert_eq!(w.trash_finished(&mut m, &Err(s("拒绝"))), Err(s("拒绝")));
    assert_eq!(m.entries.len(), 2);
    assert_eq!(w.trash_queue, v(&["a.md"]));
    assert_eq!(w.dirty, 0);
    assert_eq!(w.trash_finished(&mut m, &Ok(())), Ok(false));
    assert_eq!(m.entries.len(), 1);
    assert_eq!(m.entries[0].path, "b.md");
    assert!(w.trash_queue.is_empty());
    assert_eq!(w.dirty, 1);
}

#[test]
fn terminal_tries_in_order_and_reports_the_last_fallback_failure() {
    let (a, ff) = terminal_attempts(Some(s("  Warp ")), Some(s("com.googlecode.iterm2")), &v(&["kitty", "Terminal"]));
    assert_eq!(ff, 2);
    let view: Vec<(bool, String)> = a
        .iter()
        .map(|x| match x {
            TerminalAttempt::App(t) => (false, t.clone()),
            TerminalAttempt::Bundle(b) => (true, b.clone()),
        })
        .collect();
    assert_eq!(view, vec![(false, s("Warp")), (true, s("com.googlecode.iterm2")), (false, s("kitty")), (false, s("Terminal"))]);
    let (a, ff) = terminal_attempts(Some(s("  ")), Some(s("com.apple.TextEdit")), &v(&["Terminal"]));
    assert_eq!((a.len(), ff), (1, 0));
    assert_eq!(terminal_outcome(&vec![Err(s("x")), Ok(())], 1), Ok(1));
    assert_eq!(terminal_outcome(&vec![Err(s("x")), Err(s("y")), Err(s("z"))], 1), Err(s("z")));
    assert_eq!(terminal_outcome(&vec![Err(s("x"))], 1), Err(s("未找到可用的终端")));
    assert_eq!(terminal_outcome(&vec![], 0), Err(s("未找到可用的终端")));
}

#[test]
fn uuid_directories_have_no_fallback_title() {
    let e = small_editor();
    assert_eq!(title_of_dir(&e, &v(&["b.str", "01928f3a-1b2c-7d3e-8f40-000000000002"])), "");
    assert_eq!(title_of_dir(&e, &v(&["b.str", "01928f3a-1b2c-7d3e-8f40-00000000000g"])), "01928f3a-1b2c-7d3e-8f40-00000000000g");
}

#[test]
fn folder_counts_and_batch_summaries() {
    let mut m = meta_with(vec![sized("a.md", "payload", Some(1), None, None), sized("docs", "dir", None, Some(1), None)]);
    set_folder_count(&mut m, &s("docs"), 3);
    assert_eq!(m.entries[1].count, Some(3));
    assert_eq!(m.entries[0].count, None);
    set_folder_count(&mut m, &s("none"), 9);
    assert_eq!(m.entries.len(), 2);
    assert_eq!(batch_summary(&vec![true, false, true, false]), (2, true));
    assert_eq!(batch_summary(&vec![true, true]), (0, false));
    assert_eq!(batch_summary(&vec![]), (0, false));
}

#[test]
fn cut_branches_register_by_depth() {
    let moved = Meta { id: Some(s("x")), is_root: false, branch_type: Some(s("crm.customer")), title: Some(s("客户")), entries: vec![] };
    let mut dst = meta_with(vec![]);
    register_moved_branch(&mut dst, &s("x"), 0, &moved);
    register_moved_branch(&mut dst, &s("y"), 2, &moved);
    assert_eq!(dst.entries[0].role, "node");
    assert_eq!(dst.entries[1].role, "branch");
    assert_eq!(dst.entries[1].id.as_deref(), Some("y"));
    assert_eq!(dst.entries[0].branch_type.as_deref(), Some("crm.customer"));
    assert_eq!(dst.entries[0].title.as_deref(), Some("客户"));
}

#[test]
fn group_items_leave_notes_or_move_their_registrations() {
    let paths = |m: &Meta| m.entries.iter().map(|e| e.path.clone()).collect::<Vec<_>>();
    let mut src = meta_with(vec![sized("a.md", "asset", Some(3), None, Some("甲")), sized("docs", "dir", None, Some(2), None)]);
    let mut dst = meta_with(vec![sized("a.md", "payload", Some(1), None, None)]);
    let mut st = GroupMove { existing: v(&["a.md"]), moved: vec![], errs: vec![] };
    group_item_landed(&mut src, &mut dst, &mut st, &s("a.md"), &s("a 副本.md"), &Landing::MoveFailed);
    assert_eq!(st.errs, v(&["a.md：移动失败"]));
    assert_eq!(paths(&src), v(&["a.md", "docs"]));
    group_item_landed(&mut src, &mut dst, &mut st, &s("a.md"), &s("a 副本.md"), &Landing::ReadFailed);
    assert_eq!(st.errs, v(&["a.md：移动失败", "a.md：读取失败"]));
    assert_eq!(st.existing, v(&["a.md"]));
    group_item_landed(&mut src, &mut dst, &mut st, &s("a.md"), &s("a 副本.md"), &Landing::Landed(file(9)));
    assert_eq!(paths(&src), v(&["docs"]));
    assert_eq!(paths(&dst), v(&["a.md", "a 副本.md"]));
    assert_eq!((dst.entries[1].role.as_str(), dst.entries[1].size, dst.entries[1].title.as_deref()), ("asset", Some(9), Some("甲")));
    assert_eq!(st.moved, v(&["a 副本.md"]));
    assert_eq!(st.existing, v(&["a.md", "a 副本.md"]));
    // Unregistered items: the name is taken once moved; folders count their items.
    group_item_landed(&mut src, &mut dst, &mut st, &s("docs/x.txt"), &s("x.txt"), &Landing::ReadFailed);
    assert_eq!(st.existing, v(&["a.md", "a 副本.md", "x.txt"]));
    assert_eq!(st.errs.len(), 3);
    group_item_landed(&mut src, &mut dst, &mut st, &s("docs/sub"), &s("sub"), &Landing::Landed(folder(4)));
    assert_eq!((dst.entries[2].path.as_str(), dst.entries[2].role.as_str(), dst.entries[2].count), ("sub", "dir", Some(4)));
    group_item_landed(&mut src, &mut dst, &mut st, &s("docs/y.txt"), &s("y.txt"), &Landing::Landed(file(6)));
    assert_eq!((dst.entries[3].role.as_str(), dst.entries[3].size), ("payload", Some(6)));
    assert_eq!(st.moved, v(&["a 副本.md", "sub", "y.txt"]));
    assert_eq!(paths(&src), v(&["docs"]));
}

#[test]
fn rewritten_sequences_are_numbered_in_order() {
    let orders = |m: &Meta| m.entries.iter().map(|e| (e.path.clone(), e.order)).collect::<Vec<_>>();
    let mut m = meta_with(vec![ent("a.md", "payload"), ent("k", "branch"), ent("b.md", "asset"), ent("c.md", "payload")]);
    rewrite_order(&mut m, &vec![ent("c.md", "payload"), ent("a.md", "payload")], false);
    assert_eq!(orders(&m), vec![(s("k"), None), (s("c.md"), Some(0)), (s("a.md"), Some(1))]);

    let mut g = meta_with(vec![ent("a", "payload"), ent("b", "payload"), ent("c", "payload"), ent("k", "node")]);
    place_group(&mut g, &v(&["c", "a"]), 0);
    assert_eq!(orders(&g), vec![(s("k"), None), (s("c"), Some(0)), (s("a"), Some(1)), (s("b"), Some(2))]);

    let mut one = meta_with(vec![ent("a", "payload"), ent("b", "payload")]);
    place_single(&mut one, ent("n", "asset"), Some(1));
    assert_eq!(orders(&one), vec![(s("a"), Some(0)), (s("n"), Some(1)), (s("b"), Some(2))]);
    place_single(&mut one, ent("z", "asset"), None);
    assert_eq!(one.entries[3].path, "z");
    assert_eq!(one.entries[3].order, Some(3));

    let mut parent = meta_with(vec![ent("x", "branch"), ent("f.md", "payload"), ent("y", "branch")]);
    place_branch(&mut parent, ent("m", "branch"), 9);
    assert_eq!(orders(&parent), vec![(s("f.md"), None), (s("x"), Some(0)), (s("y"), Some(1)), (s("m"), Some(2))]);
}

#[test]
fn branch_copies_point_children_at_their_copies() {
    let mut copy = meta_with(vec![]);
    let src = vec![ent("a.md", "payload"), ent("old1", "branch"), ent("docs", "dir"), ent("old2", "node")];
    copy_registrations(&mut copy, &src, &v(&["new1", "new2"]));
    let paths: Vec<String> = copy.entries.iter().map(|e| e.path.clone()).collect();
    assert_eq!(paths, v(&["a.md", "new1", "docs", "new2"]));
    assert_eq!(copy.entries[1].id.as_deref(), Some("new1"));
    assert_eq!(copy.entries[3].id.as_deref(), Some("new2"));
    assert_eq!(copy.entries[3].role, "node");
    assert_eq!(copy.entries[0].id, None);
    assert_eq!(copy.id.as_deref(), Some("m"));
}

#[test]
fn session_renames_count_as_changes() {
    let mut w = WriteSession::new();
    let mut m = meta_with(vec![sized("a.md", "payload", Some(2), None, Some("甲")), sized("b.md", "payload", None, None, None)]);
    assert_eq!(w.renamed(&mut m, &s("a.md"), &s("c.md")), Ok(false));
    assert_eq!(paths_of(&m.entries), v(&["b.md", "c.md"]));
    assert_eq!((m.entries[1].size, m.entries[1].title.as_deref()), (Some(2), Some("甲")));
    assert_eq!(w.dirty, 1);
    assert_eq!(w.renamed(&mut m, &s("zz"), &s("q")), Err(s("未找到条目")));
    assert_eq!(w.dirty, 1);
    assert_eq!(m.entries.len(), 2);
}

#[test]
fn batch_rows_report_each_item_and_a_failed_write_back() {
    let items = vec![(s("a.md"), s("甲")), (s("b.md"), s("乙"))];
    let results = vec![Ok((s("已移动"), s("docs/a.md"))), Err(s("拒绝"))];
    let rows = batch_outcomes(&items, &results, &Ok(()));
    assert_eq!(rows.len(), 2);
    assert_eq!((rows[0].status(), rows[0].title.as_str(), rows[0].msg.as_str(), rows[0].new_path.as_str()), (s("✓"), "甲", "已移动", "docs/a.md"));
    assert_eq!((rows[1].status(), rows[1].id.as_str(), rows[1].msg.as_str(), rows[1].new_path.as_str()), (s("✗"), "b.md", "拒绝", ""));
    let rows = batch_outcomes(&items, &results, &Err(s("写盘失败")));
    assert_eq!(rows.len(), 3);
    assert_eq!((rows[2].id.as_str(), rows[2].title.as_str(), rows[2].ok, rows[2].msg.as_str()), ("", "删除 / 登记写回", false, "写盘失败"));
    let ok: Vec<bool> = rows.iter().map(|r| r.ok).collect();
    assert_eq!(batch_summary(&ok), (2, true));
}

#[test]
fn recent_list_compares_paths_not_spellings() {
    assert_eq!(push_recent_body("/x/\n/y\n", "/x"), "/x\n/y\n");
    assert_eq!(push_recent_body("a//b\na/./b\n/a/b\n", "c"), "c\na//b\n/a/b\n");
    assert_eq!(push_recent_body("./a\na\n", "b"), "b\n./a\na\n");
}

#[test]
fn reveal_succeeds_when_any_window_opened() {
    assert_eq!(reveal_outcome(&vec![false, true]), Ok(()));
    assert_eq!(reveal_outcome(&vec![true]), Ok(()));
    assert_eq!(reveal_outcome(&vec![false, false]), Err(s("在 Finder 中显示失败")));
}
