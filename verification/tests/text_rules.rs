use str_gui::entries::{entry_multi_eligible, VisibleEntry};
use str_gui::handlers::parse_command_handler_from_ls_handlers_xml;
use str_gui::shortcuts::shortcut_table;
use str_gui::text::{basename, dedup_name, doc_url, fmt_size, is_latin_only, is_noise_name, name_list, parse_tags};

const XML: &str = r#"<?xml version="1.0" encoding="UTF-8"?>
<plist version="1.0">
<dict>
	<key>LSHandlers</key>
	<array>
		<dict>
			<key>LSHandlerContentType</key>
			<string>public.unix-executable</string>
			<key>LSHandlerPreferredVersions</key>
			<dict>
				<key>LSHandlerRoleShell</key>
				<string>-</string>
			</dict>
			<key>LSHandlerRoleShell</key>
			<string>com.apple.dt.xcode</string>
		</dict>
		<dict>
			<key>LSHandlerContentType</key>
			<string>com.apple.terminal.shell-script</string>
			<key>LSHandlerPreferredVersions</key>
			<dict>
				<key>LSHandlerRoleAll</key>
				<string>-</string>
			</dict>
			<key>LSHandlerRoleAll</key>
			<string>com.googlecode.iterm2</string>
		</dict>
		<dict>
			<key>LSHandlerContentTag</key>
			<string>torrent</string>
			<key>LSHandlerRoleAll</key>
			<string>com.aone.keka</string>
		</dict>
	</array>
</dict>
</plist>
"#;

#[test]
fn picks_command_handler_and_skips_placeholders() {
    assert_eq!(
        parse_command_handler_from_ls_handlers_xml(XML).as_deref(),
        Some("com.googlecode.iterm2"),
        "应取 .command 条目里非 \"-\" 的角色值，且不串到相邻条目"
    );
}

#[test]
fn missing_entry_yields_none() {
    let xml = XML.replace("com.apple.terminal.shell-script", "com.apple.terminal.nope");
    assert_eq!(parse_command_handler_from_ls_handlers_xml(&xml), None);
}

#[test]
fn handler_export_without_handlers_key_is_none() {
    assert_eq!(parse_command_handler_from_ls_handlers_xml("<plist><dict></dict></plist>"), None);
    let no_array = XML.replace("<array>", "<list>");
    assert_eq!(parse_command_handler_from_ls_handlers_xml(&no_array), None);
}

#[test]
fn handler_prefers_role_all_over_later_roles() {
    let xml = XML.replace(
        "\t\t\t<key>LSHandlerRoleAll</key>\n\t\t\t<string>com.googlecode.iterm2</string>",
        "\t\t\t<key>LSHandlerRoleShell</key>\n\t\t\t<string>com.example.shell</string>\n\t\t\t<key>LSHandlerRoleAll</key>\n\t\t\t<string>dev.warp.Warp-Stable</string>",
    );
    assert_eq!(
        parse_command_handler_from_ls_handlers_xml(&xml).as_deref(),
        Some("dev.warp.Warp-Stable")
    );
}

#[test]
fn latin_only_matches_full_height_script_boundary() {
    assert!(is_latin_only("README.md"));
    assert!(is_latin_only("examples"));
    assert!(is_latin_only(""), "空串按拉丁处理（补偿无害）");
    assert!(is_latin_only("Café 2026"));
    assert!(!is_latin_only("客户档案"));
    assert!(!is_latin_only("abc客"), "混排只要含一个满高字形就不补偿");
    assert!(!is_latin_only("日本語"), "假名 U+3040+");
    assert!(!is_latin_only("한글"), "谚文 U+AC00");
    assert!(!is_latin_only("全角ＡＢＣ"), "全角 U+FF00+");
    assert!(!is_latin_only("emoji🚀"), "emoji U+1F680");
    assert!(!is_latin_only("、。"), "CJK 标点 U+3000+");
}

#[test]
fn doc_urls_derive_from_repository() {
    let repo = "https://github.com/frowhy/str.str/";
    let (stem, ext) = ("SPEC", "md");
    let format_doc = format!("https://github.com/frowhy/str.str/blob/main/{stem}.{ext}");
    assert_eq!(doc_url(repo, 0), format_doc);
    assert_eq!(doc_url(repo, 1), "https://github.com/frowhy/str.str");
    assert_eq!(doc_url(repo, 2), "https://github.com/frowhy/str.str/issues");
    assert_eq!(doc_url(repo, 9), doc_url(repo, 2));
}

#[test]
fn doc_url_guide_link_and_trailing_slashes() {
    assert_eq!(
        doc_url("https://example.org/r//", 3),
        "https://example.org/r/blob/main/str-gui/README.md"
    );
}

#[test]
fn shortcut_table_is_grouped_and_platform_aware() {
    for mac in [true, false] {
        let rows = shortcut_table(mac);
        assert!(rows.len() > 15, "条目数应覆盖各菜单");
        assert!(rows[0].head, "首行必为组首行");
        let mut groups: Vec<&str> = Vec::new();
        for (i, r) in rows.iter().enumerate() {
            assert!(!r.name.is_empty() && !r.keys.is_empty());
            if r.head {
                assert!(
                    !groups.contains(&r.group.as_str()),
                    "同一分组不能出现两次组首行：{}",
                    r.group
                );
                groups.push(&r.group);
            } else {
                assert_eq!(r.group, rows[i - 1].group, "组内行必须与上一行同组");
            }
        }
        assert!(groups.contains(&"文件") && groups.contains(&"视图"));
        let all = rows.iter().map(|r| r.keys.as_str()).collect::<Vec<_>>().join(" ");
        if mac {
            assert!(all.contains('⌘') && !all.contains("Ctrl+"), "macOS 用 ⌘ 字形");
        } else {
            assert!(all.contains("Ctrl+") && !all.contains('⌘'), "其它平台用 Ctrl+");
        }
    }
}

#[test]
fn shortcut_keys_follow_platform_glyphs() {
    let mac = shortcut_table(true);
    let other = shortcut_table(false);
    assert_eq!(mac[0].keys, "⌘O");
    assert_eq!(other[0].keys, "Ctrl+O");
    let del_mac = mac.iter().find(|r| r.name == "删除分支").unwrap();
    assert_eq!(del_mac.keys, "⇧⌘⌫");
    let del_other = other.iter().find(|r| r.name == "删除分支").unwrap();
    assert_eq!(del_other.keys, "Shift+Ctrl+Del");
    let zoom = other.iter().find(|r| r.group == "视图" && !r.head).unwrap();
    assert_eq!(zoom.keys, "Ctrl++ / Ctrl+- / Ctrl+0");
}

fn row(depth: usize, role: &str, entries_idx: Option<usize>) -> VisibleEntry {
    VisibleEntry {
        entries_idx,
        path: "dir/file.md".into(),
        role: role.into(),
        depth,
        is_dir: false,
        expanded: false,
        drop_dir: vec!["tmp".to_string()],
        fs_path: vec!["tmp".to_string(), "dir".to_string(), "file.md".to_string()],
        size: None,
        title: None,
    }
}

#[test]
fn folder_children_are_multi_selectable() {
    assert!(entry_multi_eligible(&row(0, "payload", Some(1))), "顶层登记条目");
    assert!(entry_multi_eligible(&row(1, "file", None)), "子目录文件行（子目录行无登记）");
    assert!(entry_multi_eligible(&row(2, "dir", None)), "更深层目录行");
    assert!(!entry_multi_eligible(&row(0, "dir", None)), "未登记的顶层项保持原语义（不参与批量）");
    assert!(!entry_multi_eligible(&row(0, "node", Some(2))), "分支行不参与");
    assert!(!entry_multi_eligible(&row(0, "branch", Some(3))), "分支行不参与");
}

#[test]
fn size_labels_match_float_formatting() {
    assert_eq!(fmt_size(None), "—");
    assert_eq!(fmt_size(Some(0)), "0 B");
    assert_eq!(fmt_size(Some(-5)), "-5 B");
    assert_eq!(fmt_size(Some(1023)), "1023 B");
    assert_eq!(fmt_size(Some(1024)), "1.0 KB");
    assert_eq!(fmt_size(Some(1536)), "1.5 KB");
    assert_eq!(fmt_size(Some(1048576)), "1.0 MB");
    assert_eq!(fmt_size(Some(i64::MAX)), format!("{:.1} MB", i64::MAX as f64 / 1048576.0));
    assert_eq!(fmt_size(Some(i64::MIN)), format!("{} B", i64::MIN));
    for n in (1024i64..1024 * 1024).step_by(97) {
        assert_eq!(fmt_size(Some(n)), format!("{:.1} KB", n as f64 / 1024.0), "n = {n}");
    }
    let mut n: i64 = 1024 * 1024;
    while n < i64::MAX / 3 {
        for d in [0i64, 1, 51, 52, 53, 104857, 104858] {
            let m = n + d;
            assert_eq!(fmt_size(Some(m)), format!("{:.1} MB", m as f64 / 1048576.0), "m = {m}");
        }
        n = n * 3 + 7;
    }
    // ties of the tenths digit
    for k in 0..4000i64 {
        let m = 1024 * 1024 + k * 52428 + k / 3;
        assert_eq!(fmt_size(Some(m)), format!("{:.1} MB", m as f64 / 1048576.0), "m = {m}");
    }
    let big = (1i64 << 53) + 1;
    assert_eq!(fmt_size(Some(big)), format!("{:.1} MB", big as f64 / 1048576.0));
}

#[test]
fn tags_split_on_commas_and_blanks() {
    assert_eq!(parse_tags("a, b，c\td  e,,"), vec!["a", "b", "c", "d", "e"]);
    assert!(parse_tags("  ,， ").is_empty());
}

#[test]
fn name_lists_cap_at_three() {
    let names: Vec<String> = ["a", "b", "c", "d"].iter().map(|s| s.to_string()).collect();
    assert_eq!(name_list(&names[..1]), "a");
    assert_eq!(name_list(&names[..3]), "a、b、c");
    assert_eq!(name_list(&names), "a、b、c…");
    assert_eq!(name_list(&[]), "");
}

#[test]
fn basenames_and_noise() {
    assert_eq!(basename("a/b/c.txt"), "c.txt");
    assert_eq!(basename("c.txt"), "c.txt");
    assert_eq!(basename("dir/"), "");
    assert!(is_noise_name(".DS_Store"));
    assert!(is_noise_name("._x"));
    assert!(is_noise_name("__MACOSX"));
    assert!(is_noise_name("THUMBS.DB"));
    assert!(!is_noise_name("Thumbs.dbx"));
    assert!(!is_noise_name("notes.md"));
}

#[test]
fn copy_names_count_up() {
    let existing: Vec<String> = ["a.txt", "a 副本.txt", "a 副本 2.txt", "b"]
        .iter()
        .map(|s| s.to_string())
        .collect();
    assert_eq!(dedup_name(&existing, "new.txt"), "new.txt");
    assert_eq!(dedup_name(&existing, "a.txt"), "a 副本 3.txt");
    assert_eq!(dedup_name(&existing, "b"), "b 副本");
    let hidden: Vec<String> = vec![".env".to_string()];
    assert_eq!(dedup_name(&hidden, ".env"), ".env 副本");
    let tgz: Vec<String> = vec!["x.tar.gz".to_string()];
    assert_eq!(dedup_name(&tgz, "x.tar.gz"), "x.tar 副本.gz");
}

#[test]
fn size_label_ties_follow_float_formatting() {
    let mut checked = 0;
    for n in 1024i64..(1024 * 1024) {
        if (n * 10) % 1024 == 512 {
            assert_eq!(fmt_size(Some(n)), format!("{:.1} KB", n as f64 / 1024.0), "n = {n}");
            checked += 1;
        }
    }
    assert!(checked > 100);
}

#[test]
fn tags_split_on_any_whitespace() {
    assert_eq!(parse_tags("a\u{3000}b"), vec!["a", "b"]);
    assert_eq!(parse_tags("a\nb\r\nc"), vec!["a", "b", "c"]);
    assert_eq!(parse_tags("x\u{a0}y，z"), vec!["x", "y", "z"]);
}

#[test]
fn tags_of_joined_fields_concatenate() {
    for (a, b) in [("x, y", "z"), ("", "a b"), ("a\u{3000}", "，b"), (" ", " ")] {
        let mut both = parse_tags(a);
        both.extend(parse_tags(b));
        assert_eq!(parse_tags(&format!("{a},{b}")), both);
    }
}
