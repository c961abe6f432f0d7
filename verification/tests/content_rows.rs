use str_gui::editor::Editor;
use str_gui::entries::{entry_role_for, selected_row_index, visible_to_rows, VisibleEntry};
use str_gui::model::{Entry, KeySet, Meta, Scan, Visit};
use str_gui::multi::{
    collect_entry_multi, entry_multi_contiguous, entry_multi_has_unregistered, multi_transfer_text,
};
use str_gui::rows::{build_entry_rows, build_entry_rows_for, sort_children, DiskChild, FolderListing};
use str_gui::selection::{entries_select_all, entry_click, entry_select_parent, entry_step, select_entry_index};
use str_gui::transfer::{
    group_transfer_text, in_dir_child_path, menu_targets, parse_entry_transfer, parse_entry_transfer_multi,
    path_text_exec, rel_components_exec,
};

fn s(x: &str) -> String {
    x.to_string()
}

fn ent(path: &str, role: &str, size: Option<i64>, title: Option<&str>) -> Entry {
    Entry { path: s(path), role: s(role), id: None, branch_type: None, title: title.map(s), note: None, size, count: None, sha256: None, order: None }
}

fn comps(parts: &[&str]) -> Vec<String> {
    parts.iter().map(|p| s(p)).collect()
}

/// One branch at /b.str registering a file, a folder, a child branch and an
/// asset.
fn one_branch_editor() -> Editor {
    let meta = Meta {
        id: Some(s("r")),
        is_root: true,
        branch_type: None,
        title: Some(s("根")),
        entries: vec![
            ent("a.md", "payload", Some(10), Some("说明")),
            ent("docs", "dir", None, None),
            ent("child", "node", None, Some("子分支")),
            ent("z.png", "asset", Some(2048), None),
        ],
    };
    let scan = Scan {
        visits: vec![
            Visit { parent: None, depth: 0, rel: s(""), dir: comps(&["b.str"]), meta: Some(meta) },
            Visit { parent: Some(0), depth: 1, rel: s("child"), dir: comps(&["b.str", "child"]), meta: None },
        ],
        root_index: Some(0),
    };
    let mut e = Editor::new();
    e.open_scan(scan);
    e
}

fn listings() -> Vec<FolderListing> {
    vec![
        FolderListing {
            dir: comps(&["b.str", "docs"]),
            children: vec![
                DiskChild { name: s(".DS_Store"), is_dir: false, size: Some(6) },
                DiskChild { name: s("img"), is_dir: true, size: None },
                DiskChild { name: s("note.txt"), is_dir: false, size: Some(3) },
            ],
        },
        FolderListing {
            dir: comps(&["b.str", "docs", "img"]),
            children: vec![DiskChild { name: s("p.png"), is_dir: false, size: Some(5) }],
        },
    ]
}

fn paths(rows: &[VisibleEntry]) -> Vec<String> {
    rows.iter().map(|r| r.path.clone()).collect()
}

#[test]
fn content_rows_list_entries_and_open_folders() {
    let mut e = one_branch_editor();
    let rows = build_entry_rows_for(&e, 0, &listings());
    assert_eq!(paths(&rows), vec!["a.md", "docs", "z.png"]);
    assert_eq!(rows[0].entries_idx, Some(0));
    assert_eq!(rows[2].entries_idx, Some(3));
    assert!(rows[1].is_dir && !rows[1].expanded);
    assert_eq!(rows[1].drop_dir, comps(&["b.str", "docs"]));
    assert_eq!(rows[0].drop_dir, comps(&["b.str"]));
    assert_eq!(rows[0].fs_path, comps(&["b.str", "a.md"]));

    e.expanded_dirs.insert(&s("/b.str/docs"));
    let rows = build_entry_rows_for(&e, 0, &listings());
    // Clutter stays hidden; a closed sub-folder shows no children.
    assert_eq!(paths(&rows), vec!["a.md", "docs", "docs/img", "docs/note.txt", "z.png"]);
    assert!(rows[1].expanded);
    assert_eq!(rows[2].role, "dir");
    assert_eq!(rows[2].depth, 1);
    assert_eq!(rows[2].entries_idx, None);
    assert_eq!(rows[3].role, "file");
    assert_eq!(rows[3].size, Some(3));
    assert_eq!(rows[3].drop_dir, comps(&["b.str", "docs"]));

    e.expanded_dirs.insert(&s("/b.str/docs/img"));
    let rows = build_entry_rows_for(&e, 0, &listings());
    assert_eq!(paths(&rows), vec!["a.md", "docs", "docs/img", "docs/img/p.png", "docs/note.txt", "z.png"]);
    assert_eq!(rows[3].depth, 2);
    assert_eq!(rows[3].fs_path, comps(&["b.str", "docs", "img", "p.png"]));

    // A branch without a parsed ._meta, or outside the scan, has no rows.
    assert!(build_entry_rows_for(&e, 1, &listings()).is_empty());
    assert!(build_entry_rows_for(&e, 7, &listings()).is_empty());
    assert!(build_entry_rows_for(&Editor::new(), 0, &listings()).is_empty());
}

#[test]
fn ui_rows_carry_labels_and_marks() {
    let mut e = one_branch_editor();
    e.expanded_dirs.insert(&s("/b.str/docs"));
    let rows = build_entry_rows_for(&e, 0, &listings());
    let mut multi = KeySet::new();
    multi.insert(&s("docs/note.txt"));
    let ui = visible_to_rows(&rows, &multi);
    assert_eq!(ui.len(), rows.len());
    assert_eq!(ui[0].display, "a.md");
    assert_eq!(ui[0].title, "说明");
    assert_eq!(ui[0].size, "10 B");
    assert!(ui[0].is_file && !ui[0].is_branch && ui[0].latin);
    assert_eq!(ui[1].size, "—");
    assert!(ui[1].is_dir && !ui[1].is_file);
    assert_eq!(ui[3].display, "note.txt");
    assert_eq!(ui[3].depth, 1);
    assert!(ui[3].in_multi && !ui[0].in_multi);
    assert_eq!(ui[4].size, "2.0 KB");
    assert_eq!(selected_row_index(-1), None);
    assert_eq!(selected_row_index(3), Some(3));
}

/// The rows with the `docs` folder open:
/// a.md, docs, docs/img, docs/note.txt, z.png.
fn open_rows() -> Vec<VisibleEntry> {
    let mut ed = one_branch_editor();
    ed.expanded_dirs.insert(&s("/b.str/docs"));
    build_entry_rows_for(&ed, 0, &listings())
}

#[test]
fn plain_toggle_and_range_clicks() {
    let mut e = one_branch_editor();
    let rows = open_rows();
    entry_click(&mut e, &rows, 0, false, false);
    assert!(e.entry_multi.contains(&s("a.md")) && e.entry_multi.len() == 1);
    assert_eq!(e.selected_entry_path.as_deref(), Some("a.md"));
    assert_eq!(e.entry_anchor, Some(0));

    entry_click(&mut e, &rows, 3, false, true);
    assert!(e.entry_multi.contains(&s("a.md")) && e.entry_multi.contains(&s("docs/note.txt")));
    assert_eq!(e.selected_entry_path.as_deref(), Some("docs/note.txt"));
    assert_eq!(e.entry_anchor, Some(3));

    // ⌘-click on a selected row removes it; one row is left and becomes primary.
    entry_click(&mut e, &rows, 3, false, true);
    assert_eq!(e.entry_multi.len(), 1);
    assert_eq!(e.selected_entry_path.as_deref(), Some("a.md"));

    // Shift from the anchor (row 3) to row 1: eligible rows 1..=3 only
    // (the unregistered top level is excluded, "docs" is registered).
    entry_click(&mut e, &rows, 1, true, false);
    assert!(e.entry_multi.contains(&s("docs")));
    assert!(e.entry_multi.contains(&s("docs/img")));
    assert!(e.entry_multi.contains(&s("docs/note.txt")));
    assert!(!e.entry_multi.contains(&s("a.md")));
    assert_eq!(e.selected_entry_path.as_deref(), Some("docs"));
    assert_eq!(e.entry_anchor, Some(3));

    // A click past the rows changes nothing.
    let before = e.entry_multi.len();
    entry_click(&mut e, &rows, 99, false, false);
    assert_eq!(e.entry_multi.len(), before);
}

#[test]
fn toggle_adopts_primary_into_empty_selection() {
    let mut e = one_branch_editor();
    let rows = open_rows();
    e.selected_entry_path = Some(s("a.md"));
    entry_click(&mut e, &rows, 4, false, true);
    assert!(e.entry_multi.contains(&s("a.md")));
    assert!(e.entry_multi.contains(&s("z.png")));
    assert_eq!(e.entry_multi.len(), 2);
    assert_eq!(e.selected_entry_path.as_deref(), Some("z.png"));
}

#[test]
fn arrow_keys_parent_and_select_all() {
    let mut e = one_branch_editor();
    let rows = open_rows();
    entry_step(&mut e, &rows, 1, false, None);
    assert_eq!(e.selected_entry_path.as_deref(), Some("a.md"));
    entry_step(&mut e, &rows, 1, false, Some(0));
    assert_eq!(e.selected_entry_path.as_deref(), Some("docs"));
    entry_step(&mut e, &rows, 10, false, Some(1));
    assert_eq!(e.selected_entry_path.as_deref(), Some("z.png"));
    assert_eq!(e.entry_anchor, Some(4));
    entry_step(&mut e, &rows, -2, true, Some(4));
    assert_eq!(e.selected_entry_path.as_deref(), Some("docs/img"));
    assert_eq!(e.entry_multi.len(), 3);
    assert_eq!(e.entry_anchor, Some(4));

    entry_select_parent(&mut e, &rows, Some(3));
    assert_eq!(e.selected_entry_path.as_deref(), Some("docs"));
    assert_eq!(e.entry_multi.len(), 1);
    assert_eq!(e.entry_anchor, Some(1));
    // At the top level there is no parent row.
    entry_select_parent(&mut e, &rows, Some(1));
    assert_eq!(e.selected_entry_path.as_deref(), Some("docs"));

    select_entry_index(&mut e, &rows, 99);
    assert_eq!(e.selected_entry_path, None);
    assert_eq!(e.entry_multi.len(), 0);

    entries_select_all(&mut e, &rows);
    // a.md, docs, docs/img, docs/note.txt, z.png are all eligible.
    assert_eq!(e.entry_multi.len(), 5);
    assert_eq!(e.selected_entry_path, None);
}

#[test]
fn batch_items_visible_first_then_hidden_in_order() {
    let mut e = one_branch_editor();
    let rows = open_rows();
    e.entry_multi.insert(&s("z.png"));
    e.entry_multi.insert(&s("docs/img/q.png"));
    e.entry_multi.insert(&s("a.md"));
    e.entry_multi.insert(&s("docs/img/p.png"));
    e.entry_multi.insert(&s("gone.md"));
    let alive = vec![s("docs/img/q.png"), s("docs/img/p.png"), s("a.md"), s("z.png")];
    let items = collect_entry_multi(&e, &rows, &alive);
    let got: Vec<(String, String)> = items.clone();
    assert_eq!(
        got,
        vec![
            (s("a.md"), s("a.md")),
            (s("z.png"), s("z.png")),
            (s("docs/img/p.png"), s("p.png")),
            (s("docs/img/q.png"), s("q.png")),
        ]
    );
    assert!(!entry_multi_contiguous(&e, &rows));
    assert!(entry_multi_has_unregistered(&items, &vec![s("a.md"), s("z.png")]));
    assert!(!entry_multi_has_unregistered(&items[..2].to_vec(), &vec![s("a.md"), s("z.png")]));

    let text = multi_transfer_text(&e, "0", &s("a.md"), "0|a.md", &items);
    assert_eq!(text, "0|a.md\nz.png\ndocs/img/p.png\ndocs/img/q.png");
    let single = multi_transfer_text(&e, "0", &s("docs"), "0|docs", &items);
    assert_eq!(single, "0|docs");

    let mut c = one_branch_editor();
    c.entry_multi.insert(&s("docs"));
    c.entry_multi.insert(&s("docs/img"));
    assert!(entry_multi_contiguous(&c, &rows));
}

#[test]
fn payloads_decode_and_round_trip() {
    assert_eq!(parse_entry_transfer("3|a/b.md"), Some((3, s("a/b.md"))));
    assert_eq!(parse_entry_transfer("+3| a.md "), Some((3, s("a.md"))));
    assert_eq!(parse_entry_transfer("3|  "), None);
    assert_eq!(parse_entry_transfer("x|a.md"), None);
    assert_eq!(parse_entry_transfer("a.md"), None);
    assert_eq!(parse_entry_transfer("-1|a.md"), None);
    assert_eq!(parse_entry_transfer_multi("2|a.md\r\n\n b.md \n"), Some((2, vec![s("a.md"), s("b.md")])));
    assert_eq!(parse_entry_transfer_multi("2|\n \n"), None);
    let enc = group_transfer_text("7", &[s("x/y.md"), s("z.txt")]);
    assert_eq!(enc, "7|x/y.md\nz.txt");
    assert_eq!(parse_entry_transfer_multi(&enc), Some((7, vec![s("x/y.md"), s("z.txt")])));
    assert_eq!(menu_targets("a.md\n\n b.md"), vec![s("a.md"), s(" b.md")]);
}

#[test]
fn landed_entries_are_named_relative_to_the_branch() {
    let v = comps(&["b.str", "br"]);
    assert_eq!(in_dir_child_path(&v, &comps(&["b.str", "br", "docs", "img"]), "p.png"), "docs/img/p.png");
    assert_eq!(in_dir_child_path(&v, &v, "p.png"), "p.png");
    assert_eq!(in_dir_child_path(&v, &comps(&["elsewhere", "docs"]), "p.png"), "p.png");
    assert_eq!(path_text_exec(&comps(&["b.str", "docs"])), "/b.str/docs");
    assert_eq!(rel_components_exec("/a//b/"), vec![s("a"), s("b")]);
}

#[test]
fn roles_prefer_registration_then_disk() {
    let e = one_branch_editor();
    let v = &e.scan.as_ref().unwrap().visits[0];
    assert_eq!(entry_role_for(v, &s("z.png"), Some(false)).as_deref(), Some("asset"));
    assert_eq!(entry_role_for(v, &s("new"), Some(true)).as_deref(), Some("dir"));
    assert_eq!(entry_role_for(v, &s("new.md"), Some(false)).as_deref(), Some("payload"));
    assert_eq!(entry_role_for(v, &s("missing"), None), None);
}

#[test]
fn active_branch_rows() {
    let mut e = one_branch_editor();
    assert_eq!(paths(&build_entry_rows(&e, &listings())), vec!["a.md", "docs", "z.png"]);
    e.select_visit(1);
    assert!(build_entry_rows(&e, &listings()).is_empty());
    e.selected = None;
    assert!(build_entry_rows(&e, &listings()).is_empty());
}

#[test]
fn single_payload_round_trip() {
    for (v, p) in [(0usize, "a.md"), (42, "docs/x y.txt"), (usize::MAX, "z")] {
        assert_eq!(parse_entry_transfer(&format!("{v}|{p}")), Some((v, p.to_string())));
    }
}

#[test]
fn one_line_payloads_decode_alike() {
    for t in ["3| a.md ", "+3|a/b.md\r", "3|  ", "x|a", "7|中文.md"] {
        let single = parse_entry_transfer(t).map(|(v, p)| (v, vec![p]));
        assert_eq!(parse_entry_transfer_multi(t), single, "{t}");
    }
}

#[test]
fn listings_sort_children_by_name() {
    let kid = |n: &str| DiskChild { name: s(n), is_dir: false, size: None };
    let sorted = sort_children(vec![kid("b.md"), kid("B.md"), kid("a"), kid("中"), kid("a.md")]);
    let names: Vec<String> = sorted.iter().map(|c| c.name.clone()).collect();
    assert_eq!(names, vec![s("B.md"), s("a"), s("a.md"), s("b.md"), s("中")]);
    assert!(sort_children(vec![]).is_empty());
}
