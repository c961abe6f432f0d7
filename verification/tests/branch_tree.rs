use str_gui::branch_move::{branch_move_plan, into_child_plan, kind_update, BranchKind, tree_drop_ok, tree_nest_ok, BranchMoveOp};
use str_gui::editor::Editor;
use str_gui::entries::node_multi;
use str_gui::model::{Entry, KeySet, Meta, Scan, Visit};
use str_gui::signature::layout_key;
use str_gui::tree::{selection_spine, visit_title};

fn s(x: &str) -> String {
    x.to_string()
}

fn ent(path: &str, role: &str, title: Option<&str>, id: Option<&str>) -> Entry {
    Entry {
        path: s(path),
        role: s(role),
        id: id.map(s),
        branch_type: None,
        title: title.map(s),
        note: None,
        size: None,
        count: None,
        sha256: None,
        order: None,
    }
}

fn dir_of(parts: &[&str]) -> Vec<String> {
    let mut d = vec![s("tmp"), s("客户运营.str")];
    d.extend(parts.iter().map(|p| s(p)));
    d
}

fn root_meta() -> Meta {
    Meta {
        id: Some(s("root-id")),
        is_root: true,
        branch_type: None,
        title: Some(s("客户运营")),
        entries: vec![
            ent("README.md", "payload", None, None),
            ent("客户档案", "node", Some("客户档案 · 张伟"), Some("zw-id")),
            ent("订单", "node", Some("订单数据集"), Some("dd-id")),
            ent("标签", "node", Some("标签体系"), Some("bq-id")),
        ],
    }
}

fn zw_meta() -> Meta {
    Meta {
        id: Some(s("zw-id")),
        is_root: false,
        branch_type: Some(s("customer")),
        title: Some(s("客户档案 · 张伟")),
        entries: vec![
            ent("profile.md", "payload", None, None),
            ent("跟进记录", "branch", Some("跟进记录"), Some("gj-id")),
        ],
    }
}

fn leaf_meta(id: &str, title: &str, content: &str) -> Meta {
    Meta {
        id: Some(s(id)),
        is_root: false,
        branch_type: None,
        title: Some(s(title)),
        entries: vec![ent(content, "payload", None, None)],
    }
}

/// A bundle shaped like the customer-operations example: the root registers
/// 张伟 / 订单 / 标签 in that order (the scan lists 标签 before 订单), and
/// 张伟 has one child branch.
fn demo_scan() -> Scan {
    Scan {
        visits: vec![
            Visit { parent: None, depth: 0, rel: s(""), dir: dir_of(&[]), meta: Some(root_meta()) },
            Visit { parent: Some(0), depth: 1, rel: s("客户档案"), dir: dir_of(&["客户档案"]), meta: Some(zw_meta()) },
            Visit {
                parent: Some(1),
                depth: 2,
                rel: s("客户档案/跟进记录"),
                dir: dir_of(&["客户档案", "跟进记录"]),
                meta: Some(leaf_meta("gj-id", "跟进记录", "log.md")),
            },
            Visit { parent: Some(0), depth: 1, rel: s("标签"), dir: dir_of(&["标签"]), meta: Some(leaf_meta("bq-id", "标签体系", "tags.md")) },
            Visit { parent: Some(0), depth: 1, rel: s("订单"), dir: dir_of(&["订单"]), meta: Some(leaf_meta("dd-id", "订单数据集", "data.csv")) },
        ],
        root_index: Some(0),
    }
}

fn demo_editor() -> Editor {
    let mut e = Editor::new();
    e.open_scan(demo_scan());
    e
}

fn expanded_demo() -> Editor {
    let mut e = demo_editor();
    let keys = e.all_branch_keys();
    for k in &keys {
        e.expanded.insert(k);
    }
    e.rebuild();
    e
}

fn find(e: &Editor, title: &str) -> usize {
    e.scan
        .as_ref()
        .unwrap()
        .visits
        .iter()
        .position(|v| visit_title(v) == title)
        .unwrap_or_else(|| panic!("no branch titled {title}"))
}

fn meta_of(e: &Editor, visit: usize) -> Result<Meta, String> {
    match visit {
        0 => Ok(root_meta()),
        _ => {
            let title = visit_title(&e.scan.as_ref().unwrap().visits[visit]);
            match title.as_str() {
                "客户档案 · 张伟" => Ok(zw_meta()),
                "跟进记录" => Ok(leaf_meta("gj-id", "跟进记录", "log.md")),
                "标签体系" => Ok(leaf_meta("bq-id", "标签体系", "tags.md")),
                "订单数据集" => Ok(leaf_meta("dd-id", "订单数据集", "data.csv")),
                _ => Err(s("读取 ._meta 失败")),
            }
        }
    }
}

fn plan(e: &Editor, src: usize, tgt: usize, after: bool) -> Result<Option<BranchMoveOp>, String> {
    let parent = e.scan.as_ref().unwrap().visits[tgt].parent.unwrap_or(0);
    branch_move_plan(e, src, tgt, after, &meta_of(e, parent), &meta_of(e, src))
}

fn drop_ok(e: &Editor, src: usize, tgt: usize, after: bool) -> bool {
    let parent = e.scan.as_ref().unwrap().visits[tgt].parent.unwrap_or(0);
    tree_drop_ok(e, src, tgt, after, &meta_of(e, parent), &meta_of(e, src))
}

#[test]
fn same_parent_reorder_yields_reorder_op() {
    let e = demo_editor();
    let src = find(&e, "订单数据集");
    let tgt = find(&e, "客户档案 · 张伟");
    match plan(&e, src, tgt, false) {
        Ok(Some(BranchMoveOp::Reorder { seq, parent_dir })) => {
            let titles: Vec<String> = seq.iter().map(|en| en.title.clone().unwrap_or_default()).collect();
            assert_eq!(titles, vec!["订单数据集", "客户档案 · 张伟", "标签体系"]);
            assert_eq!(parent_dir, dir_of(&[]));
        }
        _ => panic!("应为 Reorder"),
    }
}

#[test]
fn same_parent_no_op_boundaries_yield_none() {
    let e = demo_editor();
    let zw = find(&e, "客户档案 · 张伟");
    let dd = find(&e, "订单数据集");
    assert!(matches!(plan(&e, zw, dd, false), Ok(None)));
    assert!(matches!(plan(&e, dd, zw, true), Ok(None)));
}

#[test]
fn cross_level_move_yields_move_op_with_node_role() {
    let e = demo_editor();
    let src = find(&e, "跟进记录");
    let tgt = find(&e, "标签体系");
    match plan(&e, src, tgt, true) {
        Ok(Some(BranchMoveOp::Move { new_parent_dir, entry, pos, name, src_dir, src_parent_dir })) => {
            assert_eq!(entry.role, "node");
            assert!(new_parent_dir.last().map(|x| x.as_str()) == Some("客户运营.str"));
            assert_eq!(pos, 3);
            assert_eq!(name, "跟进记录");
            assert_eq!(entry.path, "跟进记录");
            assert_eq!(entry.id.as_deref(), Some("gj-id"));
            assert_eq!(entry.title.as_deref(), Some("跟进记录"));
            assert_eq!(src_dir, dir_of(&["客户档案", "跟进记录"]));
            assert_eq!(src_parent_dir, dir_of(&["客户档案"]));
        }
        _ => panic!("应为 Move"),
    }
}

#[test]
fn move_into_own_subtree_is_rejected() {
    let e = demo_editor();
    let zw = find(&e, "客户档案 · 张伟");
    let follow = find(&e, "跟进记录");
    assert!(matches!(plan(&e, zw, follow, true), Err(msg) if msg.contains("子树")));
    assert!(matches!(plan(&e, zw, follow, false), Err(msg) if msg.contains("子树")));
}

#[test]
fn root_rows_are_rejected() {
    let e = demo_editor();
    let dd = find(&e, "订单数据集");
    assert!(matches!(plan(&e, 0, dd, true), Err(msg) if msg.contains("ROOT")));
    assert!(matches!(plan(&e, dd, 0, true), Err(msg) if msg.contains("ROOT")));
}

#[test]
fn tree_drop_ok_mirrors_plan() {
    let e = demo_editor();
    let zw = find(&e, "客户档案 · 张伟");
    let dd = find(&e, "订单数据集");
    let bq = find(&e, "标签体系");
    assert!(!drop_ok(&e, dd, zw, true));
    assert!(drop_ok(&e, bq, zw, true));
}

#[test]
fn move_plan_reports_unreadable_meta_and_missing_registration() {
    let e = demo_editor();
    let zw = find(&e, "客户档案 · 张伟");
    let dd = find(&e, "订单数据集");
    let bad: Result<Meta, String> = Err(s("读取 ._meta 失败"));
    match branch_move_plan(&e, dd, zw, false, &bad, &meta_of(&e, dd)) {
        Err(msg) => assert_eq!(msg, "读取 ._meta 失败"),
        _ => panic!("parent meta error must be reported"),
    }
    let mut unregistered = root_meta();
    unregistered.entries.retain(|x| x.path != "订单");
    match branch_move_plan(&e, dd, zw, false, &Ok(unregistered), &meta_of(&e, dd)) {
        Err(msg) => assert_eq!(msg, "未找到源分支条目"),
        _ => panic!("unregistered source must be reported"),
    }
    assert!(matches!(branch_move_plan(&e, dd, dd, false, &meta_of(&e, 0), &meta_of(&e, dd)), Ok(None)));
    assert!(!drop_ok(&e, dd, dd, true));
    match branch_move_plan(&e, dd, 9, false, &meta_of(&e, 0), &meta_of(&e, dd)) {
        Err(msg) => assert_eq!(msg, "分支无效"),
        _ => panic!("out of range"),
    }
    let closed = Editor::new();
    match branch_move_plan(&closed, 1, 2, false, &meta_of(&e, 0), &meta_of(&e, dd)) {
        Err(msg) => assert_eq!(msg, "未打开 bundle"),
        _ => panic!("closed editor"),
    }
}

#[test]
fn nesting_refuses_root_self_and_own_subtree() {
    let e = demo_editor();
    let zw = find(&e, "客户档案 · 张伟");
    let follow = find(&e, "跟进记录");
    let dd = find(&e, "订单数据集");
    assert!(tree_nest_ok(&e, dd, zw));
    assert!(tree_nest_ok(&e, follow, dd));
    assert!(!tree_nest_ok(&e, zw, follow));
    assert!(!tree_nest_ok(&e, zw, zw));
    assert!(!tree_nest_ok(&e, 0, dd));
    assert!(!tree_nest_ok(&e, dd, 99));
}

#[test]
fn children_follow_registration_order() {
    let e = demo_editor();
    let zw = find(&e, "客户档案 · 张伟");
    let dd = find(&e, "订单数据集");
    let bq = find(&e, "标签体系");
    let follow = find(&e, "跟进记录");
    assert_eq!(e.kids[0], vec![zw, dd, bq]);
    assert_eq!(e.kids[zw], vec![follow]);
    assert!(e.kids[dd].is_empty());
    // Opening expands the first branch only: the root and its children show.
    let shown: Vec<usize> = e.rows.iter().map(|r| r.visit).collect();
    assert_eq!(shown, vec![0, zw, dd, bq]);
    assert_eq!(e.rows[0].title, "客户运营");
    assert_eq!(e.rows[0].type_str, "root");
    assert!(e.rows[0].expanded && e.rows[0].has_children && e.rows[0].has_entries);
    assert_eq!(e.rows[1].depth, 1);
    assert_eq!(e.rows[1].type_str, "customer");
    assert!(!e.rows[1].expanded && e.rows[1].has_children);
    assert!(!e.rows[2].has_children);
    assert_eq!(e.selected.as_deref(), Some(""));
    assert_eq!(e.scan_gen, 1);
}

#[test]
fn unregistered_children_follow_registered_ones() {
    let mut scan = demo_scan();
    scan.visits[0].meta.as_mut().unwrap().entries.retain(|x| x.path != "客户档案");
    let mut e = Editor::new();
    e.open_scan(scan);
    let shown: Vec<usize> = e.rows.iter().map(|r| r.visit).collect();
    // 订单 (4) and 标签 (3) stay registered in that order; 客户档案 (1) comes last.
    assert_eq!(shown, vec![0, 4, 3, 1]);
}

#[test]
fn collapse_clears_descendant_expand_and_activation() {
    let mut e = demo_editor();
    let idx = e
        .scan
        .as_ref()
        .unwrap()
        .visits
        .iter()
        .position(|v| v.rel.contains("客户"))
        .expect("找到客户档案分支");
    let kids = e.kids.get(idx).cloned().unwrap_or_default();
    assert!(!kids.is_empty(), "客户档案应有子分支");
    let scan = e.scan.as_ref().unwrap();
    let root_key = scan.visits[idx].rel.clone();
    let kid_keys: Vec<String> = kids.iter().map(|&i| scan.visits[i].rel.clone()).collect();
    e.expanded.insert(&root_key);
    for key in &kid_keys {
        e.expanded.insert(key);
    }
    e.selected = Some(kid_keys[0].clone());
    e.content_expanded.insert(&kid_keys[0]);
    e.rebuild();
    assert!(e.rows.iter().any(|r| r.visit == kids[0]), "展开后子分支行可见");

    e.expanded.remove(&root_key);
    e.collapse_subtree_state(idx);
    e.rebuild();

    for key in &kid_keys {
        assert!(!e.expanded.contains(key), "子分支展开态应被移除");
        assert!(!e.content_expanded.contains(key), "子分支内容展开态应被移除");
    }
    assert_eq!(e.selected.as_deref(), Some(root_key.as_str()), "焦点应落到被收回的分支上");
    assert_eq!(e.selected_entry_path, None);
    assert!(e.entry_multi.len() == 0, "内容多选区应随焦点转移清空");
    assert!(e.rows.iter().all(|r| r.visit != kids[0]), "收缩后子分支行不应可见");
    assert!(e.rows.iter().any(|r| r.visit == idx), "被收回的分支行本身应可见且持有焦点");
}

#[test]
fn toggle_subtree_expands_then_collapses() {
    let mut e = demo_editor();
    let zw = find(&e, "客户档案 · 张伟");
    let follow = find(&e, "跟进记录");
    e.toggle_subtree(zw);
    assert!(e.rows.iter().any(|r| r.visit == follow));
    e.select_visit(follow);
    e.toggle_subtree(zw);
    assert!(e.rows.iter().all(|r| r.visit != follow));
    assert_eq!(e.selected.as_deref(), Some("客户档案"));
    // A selection outside the collapsed subtree stays where it is.
    e.toggle_subtree(zw);
    let dd = find(&e, "订单数据集");
    e.select_visit(dd);
    e.toggle_subtree(zw);
    assert_eq!(e.selected.as_deref(), Some("订单"));
}

#[test]
fn content_panel_toggle_twice_restores() {
    let mut e = demo_editor();
    let zw = find(&e, "客户档案 · 张伟");
    e.toggle_branch_content(zw);
    assert!(e.content_expanded.contains(&s("客户档案")));
    e.toggle_branch_content(zw);
    assert!(e.content_expanded.len() == 0);
    // The root's key is empty: no panel toggles for it.
    e.toggle_branch_content(0);
    assert!(e.content_expanded.len() == 0);
}

#[test]
fn select_visit_keeps_multi_only_on_same_branch() {
    let mut e = demo_editor();
    let zw = find(&e, "客户档案 · 张伟");
    e.select_visit(zw);
    e.entry_multi.insert(&s("profile.md"));
    e.entry_anchor = Some(0);
    e.select_visit(zw);
    assert!(e.entry_multi.contains(&s("profile.md")));
    assert_eq!(e.entry_anchor, Some(0));
    e.select_visit(0);
    assert!(e.entry_multi.len() == 0);
    assert_eq!(e.entry_anchor, None);
}

#[test]
fn drag_source_follows_active_branch() {
    let mut e = expanded_demo();
    let root_idx = e.selected_idx_in_visits().expect("默认选中根分支");
    assert_eq!(e.drag_source_visit(), root_idx as i32);
    let target = e
        .scan
        .as_ref()
        .unwrap()
        .visits
        .iter()
        .enumerate()
        .filter(|(_, v)| v.meta.as_ref().and_then(|m| m.id.as_deref()).is_some())
        .map(|(i, _)| i)
        .find(|&i| i != root_idx)
        .expect("至少还有另一个带 id 的分支");
    e.select_visit(target);
    assert_eq!(e.drag_source_visit(), target as i32);
    e.selected = None;
    assert_eq!(e.drag_source_visit(), -1);
}

#[test]
fn node_entry_multi_is_scoped_to_active_branch() {
    let mut e = expanded_demo();
    let keys = e.all_branch_keys();
    e.selected = keys.get(1).cloned();
    let sel = e.visit_idx(keys.get(1).unwrap()).unwrap();
    e.entry_multi.insert(&s("README.md"));
    let none = KeySet::new();
    assert_eq!(node_multi(&e, sel, &none).len(), 1, "激活分支的面板应带多选高亮");
    assert!(
        (0..e.scan.as_ref().unwrap().visits.len())
            .filter(|&i| i != sel)
            .all(|i| node_multi(&e, i, &none).len() == 0),
        "非激活分支的面板不得带多选高亮（同名条目会串台）"
    );
}

#[test]
fn rescan_keeps_live_selection_and_falls_back() {
    let mut closed = Editor::new();
    assert!(closed.rescan_with(demo_scan(), &vec![]).is_err());
    assert!(closed.scan.is_none());

    let mut e = demo_editor();
    let zw = find(&e, "客户档案 · 张伟");
    e.select_visit(zw);
    e.entry_multi.insert(&s("a.md"));
    e.entry_multi.insert(&s("b.md"));
    assert!(e.rescan_with(demo_scan(), &vec![s("b.md"), s("c.md")]).is_ok());
    assert_eq!(e.selected.as_deref(), Some("客户档案"));
    assert!(!e.entry_multi.contains(&s("a.md")));
    assert!(e.entry_multi.contains(&s("b.md")));
    assert!(!e.entry_multi.contains(&s("c.md")));
    assert_eq!(e.scan_gen, 2);

    // The active branch vanished: the first branch becomes active.
    let mut smaller = demo_scan();
    smaller.visits.truncate(1);
    assert!(e.rescan_with(smaller, &vec![s("b.md")]).is_ok());
    assert_eq!(e.selected.as_deref(), Some(""));
    assert_eq!(e.visit_idx(&s("客户档案")), None);
}

#[test]
fn branch_keys_and_lookup() {
    let e = expanded_demo();
    assert_eq!(e.all_branch_keys(), vec![s(""), s("客户档案"), s("客户档案/跟进记录"), s("标签"), s("订单")]);
    assert_eq!(e.visible_branch_keys(), vec![s(""), s("客户档案"), s("客户档案/跟进记录"), s("订单"), s("标签")]);
    assert_eq!(e.visit_idx(&s("订单")), Some(4));
    assert_eq!(e.visit_idx(&s("nope")), None);
    // A key that occurs twice resolves to its last branch.
    let mut scan = demo_scan();
    scan.visits[3].rel = s("订单");
    let mut d = Editor::new();
    d.open_scan(scan);
    assert_eq!(d.visit_idx(&s("订单")), Some(4));
}

/// The mind map lists nodes in post-order (children before parents).
fn post_order(e: &Editor, idx: usize, out: &mut Vec<(usize, bool)>) {
    let key = &e.scan.as_ref().unwrap().visits[idx].rel;
    if e.expanded.contains(key) {
        for &c in &e.kids[idx] {
            post_order(e, c, out);
        }
    }
    out.push((idx, e.node_is_selected(idx)));
}

#[test]
fn selection_spine_reaches_root() {
    let mut e = expanded_demo();
    let scan = e.scan.as_ref().unwrap();
    let (idx, depth) = scan
        .visits
        .iter()
        .enumerate()
        .max_by_key(|(_, v)| v.depth)
        .map(|(i, v)| (i, v.depth))
        .expect("示例 bundle 有节点");
    e.selected = Some(scan.visits[idx].rel.clone());
    e.rebuild();
    let mut nodes = Vec::new();
    post_order(&e, 0, &mut nodes);
    let spine = selection_spine(&nodes, e.scan.as_ref().unwrap());
    assert_eq!(spine.len(), depth + 1, "链长应为深度 + 1");
    assert!(nodes[spine[0]].1, "链首是选中节点");
    assert_eq!(e.scan.as_ref().unwrap().visits[nodes[*spine.last().unwrap()].0].depth, 0, "链尾（回溯终点）应是根节点");
    assert_eq!(spine, vec![0, 1, 4]);
}

#[test]
fn spine_is_empty_without_selection_and_marks_follow_keys() {
    let mut e = expanded_demo();
    e.selected = None;
    let mut nodes = Vec::new();
    post_order(&e, 0, &mut nodes);
    assert!(selection_spine(&nodes, e.scan.as_ref().unwrap()).is_empty());
    assert!(nodes.iter().all(|n| !n.1));
    e.selected = Some(s("订单"));
    assert!(e.node_is_selected(4));
    assert!(!e.node_is_selected(3));
    // Outside the scan the key is empty: it matches an empty selection key.
    e.selected = Some(s(""));
    assert!(e.node_is_selected(0) && e.node_is_selected(42));
    let mut nodes = Vec::new();
    post_order(&e, 0, &mut nodes);
    // The root is selected and comes last: the chain is the root alone.
    assert_eq!(selection_spine(&nodes, e.scan.as_ref().unwrap()), vec![nodes.len() - 1]);
}

type Sig = (u64, Vec<(usize, String, String, bool, bool, bool)>, Vec<String>, Vec<usize>);

fn mind_sig(e: &Editor) -> Sig {
    let k = layout_key(e, &vec![]);
    (
        k.scan_gen,
        k.rows
            .iter()
            .map(|r| (r.visit, r.title.clone(), r.type_str.clone(), r.expanded, r.has_children, r.has_entries))
            .collect(),
        k.panels.clone(),
        k.panel_rows.clone(),
    )
}

#[test]
fn mind_sig_ignores_selection_only_changes() {
    let mut e = expanded_demo();
    let base = mind_sig(&e);
    let keys = e.all_branch_keys();
    e.selected = keys.get(1).cloned();
    e.selected_entry_path = Some(s("a.md"));
    e.entry_multi.insert(&s("a.md"));
    assert_eq!(base, mind_sig(&e), "选中 / 多选变化不得使布局缓存失效");
    let target = e.visit_idx(keys.get(1).unwrap()).unwrap();
    assert!(e.node_is_selected(target), "新选中节点应判为选中");
    assert!(
        !(0..e.scan.as_ref().unwrap().visits.len()).any(|i| i != target && e.node_is_selected(i)),
        "其余节点不应判为选中"
    );
}

#[test]
fn mind_sig_tracks_geometry_inputs() {
    let mut e = expanded_demo();
    let base = mind_sig(&e);
    let some_key = e.scan.as_ref().unwrap().visits.get(1).map(|v| v.rel.clone()).expect("示例 bundle 有多个分支");
    e.expanded.remove(&some_key);
    e.rebuild();
    assert_ne!(base, mind_sig(&e), "收起子树必须使缓存失效");
    e.expanded.insert(&some_key);
    e.rebuild();
    assert_eq!(base, mind_sig(&e), "恢复展开后签名应回到原值");
    e.content_expanded.insert(&some_key);
    assert_ne!(base, mind_sig(&e), "内容展开必须使缓存失效");
    assert_eq!(mind_sig(&e).2, vec![some_key.clone()]);
    assert_eq!(mind_sig(&e).3, vec![1]);
    e.scan_gen += 1;
    assert_ne!(base, mind_sig(&e), "scan 代次变化必须使缓存失效");
}

#[test]
fn open_panels_are_listed_in_order() {
    let mut e = expanded_demo();
    e.content_expanded.insert(&s("订单"));
    e.content_expanded.insert(&s("标签"));
    e.content_expanded.insert(&s("客户档案"));
    let sig = mind_sig(&e);
    let mut want = vec![s("客户档案"), s("标签"), s("订单")];
    want.sort();
    assert_eq!(sig.2, want);
    // Counts follow scan order: 客户档案 (1), 标签 (3), 订单 (4).
    assert_eq!(sig.3, vec![1, 1, 1]);
}

#[test]
fn nesting_plans_refuse_roots_and_own_subtrees() {
    let e = demo_editor();
    let ok = Ok(zw_meta());
    assert_eq!(into_child_plan(&e, 0, 1, &ok).err(), Some(s("ROOT 不可拖动")));
    assert_eq!(into_child_plan(&e, 1, 2, &ok).err(), Some(s("不能把分支移入其自身内部")));
    assert_eq!(into_child_plan(&e, 1, 1, &ok).err(), Some(s("分支无效")));
    assert_eq!(into_child_plan(&e, 1, 9, &ok).err(), Some(s("分支无效")));
    assert_eq!(into_child_plan(&e, 1, 3, &Err(s("读取失败"))).err(), Some(s("读取失败")));
    assert_eq!(into_child_plan(&Editor::new(), 1, 3, &ok).err(), Some(s("未打开 bundle")));
    let (name, parent, entry) = into_child_plan(&e, 1, 3, &ok).unwrap();
    assert_eq!((name.as_str(), parent), ("客户档案", 0));
    assert_eq!((entry.path.as_str(), entry.role.as_str()), ("客户档案", "branch"));
    assert_eq!(entry.id.as_deref(), Some("zw-id"));
    assert_eq!(entry.branch_type.as_deref(), Some("customer"));
    let (_, _, under_root) = into_child_plan(&e, 2, 0, &Ok(leaf_meta("gj-id", "跟进记录", "log.md"))).unwrap();
    assert_eq!(under_root.role, "node");
}

#[test]
fn moved_branches_take_the_kind_of_their_new_depth() {
    assert_eq!(kind_update(Some(BranchKind::Branch), "node"), Some(BranchKind::Node));
    assert_eq!(kind_update(Some(BranchKind::Node), "node"), None);
    assert_eq!(kind_update(Some(BranchKind::Node), "branch"), Some(BranchKind::Branch));
    assert_eq!(kind_update(None, "branch"), Some(BranchKind::Branch));
    assert_eq!(kind_update(Some(BranchKind::Branch), "branch"), None);
}
