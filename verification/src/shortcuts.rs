//! The "keyboard shortcuts" help table: the application's own interactions
//! grouped by menu, with modifier glyphs that follow the platform.
use vstd::prelude::*;

verus! {

/// One row of the table; `head` marks the first row of a group.
pub struct Shortcut {
    pub head: bool,
    pub group: String,
    pub name: String,
    pub keys: String,
}

/// Concatenates two texts.
pub fn cat2(a: &str, b: &str) -> (r: String)
    ensures
        r@ == a@ + b@,
{
    let x = crate::chars::chars_of(a);
    let y = crate::chars::chars_of(b);
    crate::chars::string_of(&crate::chars::concat(&x, &y))
}

/// Modifier glyphs: `(command, option, shift, delete)`.
pub open spec fn glyphs(mac: bool) -> (Seq<char>, Seq<char>, Seq<char>, Seq<char>) {
    if mac {
        ("⌘"@, "⌥"@, "⇧"@, "⌫"@)
    } else {
        ("Ctrl+"@, "Alt+"@, "Shift+"@, "Del"@)
    }
}

/// The table's rows as `(group, action, keys)`, in menu order.
pub open spec fn shortcut_rows(mac: bool) -> Seq<(Seq<char>, Seq<char>, Seq<char>)> {
    let (m, a, s, del) = glyphs(mac);
    seq![
        ("文件"@, "打开文件…"@, m + "O"@),
        ("文件"@, "新建文件…"@, m + "N"@),
        ("文件"@, "刷新（重新扫描磁盘）"@, m + "R"@),
        ("编辑"@, "复制 / 剪切 / 粘贴"@, m + "C / "@ + m + "X / "@ + m + "V"@),
        ("编辑"@, "制作副本"@, m + "D"@),
        ("编辑"@, "快速查看（系统预览，仅 macOS）"@, "空格"@),
        ("编辑"@, "删除条目"@, m + del),
        ("编辑"@, "保存条目修改"@, m + "S"@),
        ("分支"@, "新建子分支…"@, s + m + "N"@),
        ("分支"@, "保存分支信息"@, s + m + "S"@),
        ("分支"@, "删除分支"@, s + m + del),
        ("工具"@, "在 Finder 中显示分支"@, s + m + "R"@),
        ("工具"@, "在 Finder 中显示内容"@, a + m + "R"@),
        ("工具"@, "校验 bundle"@, s + m + "V"@),
        ("视图"@, "列表视图 / 导图视图"@, m + "1 / "@ + m + "2"@),
        ("视图"@, "放大 / 缩小 / 实际大小"@, m + "+ / "@ + m + "- / "@ + m + "0"@),
        ("鼠标与触控"@, "导图画布：拖拽平移"@, "拖拽"@),
        ("鼠标与触控"@, "小地图：单击 / 拖动 = 把视口移到该处"@, "单击 / 拖动"@),
        ("鼠标与触控"@, "小地图：滚轮 = 缩放，双击 = 回到 100%"@, "滚轮 / 双击"@),
        ("鼠标与触控"@, "双击结构树行 / 导图节点 = 展开·收起"@, "双击"@),
        ("鼠标与触控"@, "双击内容条目 = 文件夹展开·收起 / 文件用系统程序打开"@, "双击"@),
        ("鼠标与触控"@, "拖放条目跨分支移动；外部文件拖入 = 导入当前分支"@, "拖放"@),
        ("鼠标与触控"@, "右键结构树行 / 导图节点 / 内容条目 = 对应操作菜单"@, "右键"@),
        ("其他"@, "对话框：Esc 取消 / 关闭，Enter 确定"@, "Esc / Enter"@),
    ]
}

/// The rows, without group heads.
pub fn shortcut_entries(mac: bool) -> (r: Vec<(String, String, String)>)
    ensures
        r@.len() == shortcut_rows(mac).len(),
        forall|i: int| 0 <= i < r@.len() ==> {
            &&& (#[trigger] r@[i]).0@ == shortcut_rows(mac)[i].0
            &&& r@[i].1@ == shortcut_rows(mac)[i].1
            &&& r@[i].2@ == shortcut_rows(mac)[i].2
        },
{
    let m: &str = if mac { "⌘" } else { "Ctrl+" };
    let a: &str = if mac { "⌥" } else { "Alt+" };
    let s: &str = if mac { "⇧" } else { "Shift+" };
    let del: &str = if mac { "⌫" } else { "Del" };
    let mut out: Vec<(String, String, String)> = Vec::new();
    out.push(("文件".to_owned(), "打开文件…".to_owned(), cat2(m, "O")));
    out.push(("文件".to_owned(), "新建文件…".to_owned(), cat2(m, "N")));
    out.push(("文件".to_owned(), "刷新（重新扫描磁盘）".to_owned(), cat2(m, "R")));
    out.push(("编辑".to_owned(), "复制 / 剪切 / 粘贴".to_owned(), cat2(cat2(cat2(cat2(cat2(m, "C / ").as_str(), m).as_str(), "X / ").as_str(), m).as_str(), "V")));
    out.push(("编辑".to_owned(), "制作副本".to_owned(), cat2(m, "D")));
    out.push(("编辑".to_owned(), "快速查看（系统预览，仅 macOS）".to_owned(), "空格".to_owned()));
    out.push(("编辑".to_owned(), "删除条目".to_owned(), cat2(m, del)));
    out.push(("编辑".to_owned(), "保存条目修改".to_owned(), cat2(m, "S")));
    out.push(("分支".to_owned(), "新建子分支…".to_owned(), cat2(cat2(s, m).as_str(), "N")));
    out.push(("分支".to_owned(), "保存分支信息".to_owned(), cat2(cat2(s, m).as_str(), "S")));
    out.push(("分支".to_owned(), "删除分支".to_owned(), cat2(cat2(s, m).as_str(), del)));
    out.push(("工具".to_owned(), "在 Finder 中显示分支".to_owned(), cat2(cat2(s, m).as_str(), "R")));
    out.push(("工具".to_owned(), "在 Finder 中显示内容".to_owned(), cat2(cat2(a, m).as_str(), "R")));
    out.push(("工具".to_owned(), "校验 bundle".to_owned(), cat2(cat2(s, m).as_str(), "V")));
    out.push(("视图".to_owned(), "列表视图 / 导图视图".to_owned(), cat2(cat2(cat2(m, "1 / ").as_str(), m).as_str(), "2")));
    out.push(("视图".to_owned(), "放大 / 缩小 / 实际大小".to_owned(), cat2(cat2(cat2(cat2(cat2(m, "+ / ").as_str(), m).as_str(), "- / ").as_str(), m).as_str(), "0")));
    out.push(("鼠标与触控".to_owned(), "导图画布：拖拽平移".to_owned(), "拖拽".to_owned()));
    out.push(("鼠标与触控".to_owned(), "小地图：单击 / 拖动 = 把视口移到该处".to_owned(), "单击 / 拖动".to_owned()));
    out.push(("鼠标与触控".to_owned(), "小地图：滚轮 = 缩放，双击 = 回到 100%".to_owned(), "滚轮 / 双击".to_owned()));
    out.push(("鼠标与触控".to_owned(), "双击结构树行 / 导图节点 = 展开·收起".to_owned(), "双击".to_owned()));
    out.push(("鼠标与触控".to_owned(), "双击内容条目 = 文件夹展开·收起 / 文件用系统程序打开".to_owned(), "双击".to_owned()));
    out.push(("鼠标与触控".to_owned(), "拖放条目跨分支移动；外部文件拖入 = 导入当前分支".to_owned(), "拖放".to_owned()));
    out.push(("鼠标与触控".to_owned(), "右键结构树行 / 导图节点 / 内容条目 = 对应操作菜单".to_owned(), "右键".to_owned()));
    out.push(("其他".to_owned(), "对话框：Esc 取消 / 关闭，Enter 确定".to_owned(), "Esc / Enter".to_owned()));
    let ghost spec = shortcut_rows(mac);
    assert(out@.len() == spec.len());
    assert forall|i: int| 0 <= i < out@.len() implies {
        &&& (#[trigger] out@[i]).0@ == spec[i].0
        &&& out@[i].1@ == spec[i].1
        &&& out@[i].2@ == spec[i].2
    } by {
        assert(m@ == glyphs(mac).0 && a@ == glyphs(mac).1 && s@ == glyphs(mac).2 && del@ == glyphs(mac).3);
    }
    out
}

/// The help table of keyboard shortcuts and gestures for the platform
/// (`mac`: ⌘⌥⇧⌫ glyphs; elsewhere `Ctrl+` / `Alt+` / `Shift+` / `Del`).
/// A row heads its group when it is the first row or its group differs
/// from the previous row's.
pub fn shortcut_table(mac: bool) -> (r: Vec<Shortcut>)
    ensures
        r@.len() == shortcut_rows(mac).len(),
        forall|i: int| 0 <= i < r@.len() ==> {
            &&& (#[trigger] r@[i]).group@ == shortcut_rows(mac)[i].0
            &&& r@[i].name@ == shortcut_rows(mac)[i].1
            &&& r@[i].keys@ == shortcut_rows(mac)[i].2
            &&& r@[i].head == (i == 0 || shortcut_rows(mac)[i - 1].0 != shortcut_rows(mac)[i].0)
        },
{
    let entries = shortcut_entries(mac);
    let ghost spec = shortcut_rows(mac);
    let mut out: Vec<Shortcut> = Vec::new();
    let mut i: usize = 0;
    while i < entries.len()
        invariant
            i <= entries@.len(),
            entries@.len() == spec.len(),
            spec == shortcut_rows(mac),
            forall|j: int| 0 <= j < entries@.len() ==> {
                &&& (#[trigger] entries@[j]).0@ == spec[j].0
                &&& entries@[j].1@ == spec[j].1
                &&& entries@[j].2@ == spec[j].2
            },
            out@.len() == i,
            forall|j: int| 0 <= j < i ==> {
                &&& (#[trigger] out@[j]).group@ == spec[j].0
                &&& out@[j].name@ == spec[j].1
                &&& out@[j].keys@ == spec[j].2
                &&& out@[j].head == (j == 0 || spec[j - 1].0 != spec[j].0)
            },
        decreases entries.len() - i,
    {
        let head = if i == 0 { true } else { entries[i - 1].0 != entries[i].0 };
        assert(i > 0 ==> entries@[i - 1].0@ == spec[i - 1].0);
        out.push(Shortcut {
            head,
            group: entries[i].0.clone(),
            name: entries[i].1.clone(),
            keys: entries[i].2.clone(),
        });
        i += 1;
    }
    out
}

/// Row `i` heads its group.
pub open spec fn heads_group(rows: Seq<(Seq<char>, Seq<char>, Seq<char>)>, i: int) -> bool {
    i == 0 || rows[i - 1].0 != rows[i].0
}

/// The groups of the help table, in order.
pub open spec fn shortcut_groups() -> Seq<Seq<char>> {
    seq!["文件"@, "编辑"@, "分支"@, "工具"@, "视图"@, "鼠标与触控"@, "其他"@]
}

/// The group block of row `i`, and where block `b` starts.
pub open spec fn block_of(i: int) -> int {
    if i < 3 { 0 } else if i < 8 { 1 } else if i < 11 { 2 } else if i < 14 { 3 } else if i < 16 { 4 } else if i < 23 { 5 } else { 6 }
}

pub open spec fn block_start(b: int) -> int {
    if b == 0 { 0 } else if b == 1 { 3 } else if b == 2 { 8 } else if b == 3 { 11 } else if b == 4 { 14 } else if b == 5 { 16 } else { 23 }
}

proof fn lemma_groups_distinct(a: int, b: int)
    requires
        0 <= a < 7,
        0 <= b < 7,
        a != b,
    ensures
        shortcut_groups()[a] != shortcut_groups()[b],
{
    reveal_strlit("文件");
    reveal_strlit("编辑");
    reveal_strlit("分支");
    reveal_strlit("工具");
    reveal_strlit("视图");
    reveal_strlit("鼠标与触控");
    reveal_strlit("其他");
    assert(shortcut_groups()[a][0] != shortcut_groups()[b][0]);
}

proof fn lemma_row_block(mac: bool, i: int)
    requires
        0 <= i < 24,
    ensures
        shortcut_rows(mac)[i].0 == shortcut_groups()[block_of(i)],
        heads_group(shortcut_rows(mac), i) <==> i == block_start(block_of(i)),
{
    if i > 0 && i == block_start(block_of(i)) {
        lemma_groups_distinct(block_of(i) - 1, block_of(i));
        assert(shortcut_rows(mac)[i - 1].0 == shortcut_groups()[block_of(i) - 1]);
    }
}

/// The help table lists each group in one run: no group heads twice, on
/// either platform.
pub proof fn law_shortcut_groups_contiguous(mac: bool)
    ensures
        shortcut_rows(mac).len() > 15,
        forall|i: int, j: int| 0 <= i < j < shortcut_rows(mac).len() && heads_group(shortcut_rows(mac), i)
            && heads_group(shortcut_rows(mac), j) ==> shortcut_rows(mac)[i].0 != shortcut_rows(mac)[j].0,
{
    assert forall|i: int, j: int| 0 <= i < j < shortcut_rows(mac).len() && heads_group(shortcut_rows(mac), i)
        && heads_group(shortcut_rows(mac), j) implies shortcut_rows(mac)[i].0 != shortcut_rows(mac)[j].0 by {
        lemma_row_block(mac, i);
        lemma_row_block(mac, j);
        lemma_groups_distinct(block_of(i), block_of(j));
    }
}

/// The macOS and other-platform tables list the same groups and actions in
/// the same order (so the same group heads); only the key glyphs differ.
pub proof fn law_shortcut_platforms_agree()
    ensures
        shortcut_rows(true).len() == shortcut_rows(false).len(),
        forall|i: int| 0 <= i < shortcut_rows(true).len() ==> #[trigger] shortcut_rows(true)[i].0 == shortcut_rows(false)[i].0
            && shortcut_rows(true)[i].1 == shortcut_rows(false)[i].1,
        forall|i: int| 0 <= i < shortcut_rows(true).len() ==> #[trigger] heads_group(shortcut_rows(true), i) == heads_group(shortcut_rows(false), i),
{
    let a = shortcut_rows(true);
    let b = shortcut_rows(false);
    assert forall|i: int| 0 <= i < a.len() implies #[trigger] a[i].0 == b[i].0 && a[i].1 == b[i].1 by {}
    assert forall|i: int| 0 <= i < a.len() implies #[trigger] heads_group(a, i) == heads_group(b, i) by {
        if i > 0 {
            assert(a[i - 1].0 == b[i - 1].0);
        }
    }
}

/// `t` occurs in `s` as a run of consecutive characters.
pub open spec fn mentions(s: Seq<char>, t: Seq<char>) -> bool {
    exists|k: int| 0 <= k && k + t.len() <= s.len() && #[trigger] s.subrange(k, k + t.len()) == t
}

/// No character of `s` is `c`.
pub open spec fn free_of(s: Seq<char>, c: char) -> bool {
    forall|k: int| 0 <= k < s.len() ==> #[trigger] s[k] != c
}

/// Keys written without any of the other platform's modifier words.
pub open spec fn plain_keys(s: Seq<char>) -> bool {
    !mentions(s, "Ctrl+"@) && !mentions(s, "Alt+"@) && !mentions(s, "Shift+"@) && !mentions(s, "Del"@)
}

proof fn lemma_free_not_mentions(s: Seq<char>, t: Seq<char>, j: int)
    requires
        0 <= j < t.len(),
        free_of(s, t[j]),
    ensures
        !mentions(s, t),
{
    if mentions(s, t) {
        let k = choose|k: int| 0 <= k && k + t.len() <= s.len() && #[trigger] s.subrange(k, k + t.len()) == t;
        assert(s.subrange(k, k + t.len())[j] == s[k + j]);
    }
}

proof fn lemma_prefix_mentions(s: Seq<char>, t: Seq<char>)
    requires
        t.len() <= s.len(),
        forall|k: int| 0 <= k < t.len() ==> s[k] == t[k],
    ensures
        mentions(s, t),
{
    let k: int = 0;
    assert(s.subrange(k, k + t.len()) =~= t);
}

proof fn lemma_free_add(x: Seq<char>, y: Seq<char>, c: char)
    requires
        free_of(x, c),
        free_of(y, c),
    ensures
        free_of(x + y, c),
{
    assert forall|k: int| 0 <= k < (x + y).len() implies #[trigger] (x + y)[k] != c by {
        if k >= x.len() {
            assert((x + y)[k] == y[k - x.len()]);
        }
    }
}

/// Every row's keys avoid `c` when the glyphs and the fixed texts do.
proof fn lemma_rows_free(mac: bool, c: char)
    requires
        free_of(glyphs(mac).0, c),
        free_of(glyphs(mac).1, c),
        free_of(glyphs(mac).2, c),
        free_of(glyphs(mac).3, c),
        c != 'O' && c != 'N' && c != 'R' && c != 'C' && c != 'X' && c != 'V' && c != 'D' && c != 'S',
        c != '1' && c != '2' && c != '0' && c != '+' && c != '-' && c != '/' && c != ' ',
        c != 'E' && c != 's' && c != 'c' && c != 'n' && c != 't' && c != 'e' && c != 'r',
        c != '空' && c != '格' && c != '拖' && c != '拽' && c != '单' && c != '击' && c != '动',
        c != '滚' && c != '轮' && c != '双' && c != '放' && c != '右' && c != '键',
    ensures
        forall|i: int| 0 <= i < shortcut_rows(mac).len() ==> free_of(#[trigger] shortcut_rows(mac)[i].2, c),
{
    reveal_strlit("O");
    reveal_strlit("N");
    reveal_strlit("R");
    reveal_strlit("C / ");
    reveal_strlit("X / ");
    reveal_strlit("V");
    reveal_strlit("D");
    reveal_strlit("S");
    reveal_strlit("空格");
    reveal_strlit("1 / ");
    reveal_strlit("2");
    reveal_strlit("+ / ");
    reveal_strlit("- / ");
    reveal_strlit("0");
    reveal_strlit("拖拽");
    reveal_strlit("单击 / 拖动");
    reveal_strlit("滚轮 / 双击");
    reveal_strlit("双击");
    reveal_strlit("拖放");
    reveal_strlit("右键");
    reveal_strlit("Esc / Enter");
    let (m, a, s, del) = glyphs(mac);
    assert(free_of("O"@, c) && free_of("N"@, c) && free_of("R"@, c) && free_of("C / "@, c));
    assert(free_of("X / "@, c) && free_of("V"@, c) && free_of("D"@, c) && free_of("S"@, c));
    assert(free_of("1 / "@, c) && free_of("2"@, c) && free_of("+ / "@, c) && free_of("- / "@, c));
    assert(free_of("0"@, c) && free_of("空格"@, c) && free_of("拖拽"@, c) && free_of("单击 / 拖动"@, c));
    assert(free_of("滚轮 / 双击"@, c) && free_of("双击"@, c) && free_of("拖放"@, c) && free_of("右键"@, c));
    assert(free_of("Esc / Enter"@, c));
    lemma_free_add(m, "O"@, c);
    lemma_free_add(m, "N"@, c);
    lemma_free_add(m, "R"@, c);
    lemma_free_add(m, "C / "@, c);
    lemma_free_add(m + "C / "@, m, c);
    lemma_free_add(m + "C / "@ + m, "X / "@, c);
    lemma_free_add(m + "C / "@ + m + "X / "@, m, c);
    lemma_free_add(m + "C / "@ + m + "X / "@ + m, "V"@, c);
    lemma_free_add(m, "D"@, c);
    lemma_free_add(m, del, c);
    lemma_free_add(m, "S"@, c);
    lemma_free_add(s, m, c);
    lemma_free_add(s + m, "N"@, c);
    lemma_free_add(s + m, "S"@, c);
    lemma_free_add(s + m, del, c);
    lemma_free_add(s + m, "R"@, c);
    lemma_free_add(a, m, c);
    lemma_free_add(a + m, "R"@, c);
    lemma_free_add(s + m, "V"@, c);
    lemma_free_add(m, "1 / "@, c);
    lemma_free_add(m + "1 / "@, m, c);
    lemma_free_add(m + "1 / "@ + m, "2"@, c);
    lemma_free_add(m, "+ / "@, c);
    lemma_free_add(m + "+ / "@, m, c);
    lemma_free_add(m + "+ / "@ + m, "- / "@, c);
    lemma_free_add(m + "+ / "@ + m + "- / "@, m, c);
    lemma_free_add(m + "+ / "@ + m + "- / "@ + m, "0"@, c);
}

/// The help table on either platform: more than fifteen rows, a head on the
/// first, every action and every key text non-empty, the File and View
/// groups present among the heads; the macOS keys show ⌘ and never the
/// word `Ctrl+`, the other platform's show `Ctrl+` and never ⌘.
pub proof fn law_shortcut_table_shape(mac: bool)
    ensures
        shortcut_rows(mac).len() > 15,
        heads_group(shortcut_rows(mac), 0),
        forall|i: int| 0 <= i < shortcut_rows(mac).len() ==> (#[trigger] shortcut_rows(mac)[i]).1.len() > 0
            && shortcut_rows(mac)[i].2.len() > 0,
        exists|i: int| 0 <= i < shortcut_rows(mac).len() && heads_group(shortcut_rows(mac), i)
            && #[trigger] shortcut_rows(mac)[i].0 == "文件"@,
        exists|i: int| 0 <= i < shortcut_rows(mac).len() && heads_group(shortcut_rows(mac), i)
            && #[trigger] shortcut_rows(mac)[i].0 == "视图"@,
        mac ==> exists|i: int| 0 <= i < shortcut_rows(mac).len() && mentions(#[trigger] shortcut_rows(mac)[i].2, "⌘"@),
        mac ==> forall|i: int| 0 <= i < shortcut_rows(mac).len() ==> !mentions(#[trigger] shortcut_rows(mac)[i].2, "Ctrl+"@),
        !mac ==> exists|i: int| 0 <= i < shortcut_rows(mac).len() && mentions(#[trigger] shortcut_rows(mac)[i].2, "Ctrl+"@),
        !mac ==> forall|i: int| 0 <= i < shortcut_rows(mac).len() ==> !mentions(#[trigger] shortcut_rows(mac)[i].2, "⌘"@),
{
    let rows = shortcut_rows(mac);
    reveal_strlit("⌘");
    reveal_strlit("⌥");
    reveal_strlit("⇧");
    reveal_strlit("⌫");
    reveal_strlit("Ctrl+");
    reveal_strlit("Alt+");
    reveal_strlit("Shift+");
    reveal_strlit("Del");
    reveal_strlit("O");
    assert forall|i: int| 0 <= i < rows.len() implies (#[trigger] rows[i]).1.len() > 0 && rows[i].2.len() > 0 by {
        lemma_row_texts(mac, i);
    }
    lemma_row_block(mac, 0);
    lemma_row_block(mac, 14);
    assert(heads_group(rows, 0) && rows[0].0 == "文件"@);
    assert(heads_group(rows, 14) && rows[14].0 == "视图"@);
    lemma_prefix_mentions(rows[0].2, glyphs(mac).0);
    if mac {
        assert(free_of(glyphs(mac).0, 'l') && free_of(glyphs(mac).1, 'l'));
        assert(free_of(glyphs(mac).2, 'l') && free_of(glyphs(mac).3, 'l'));
        lemma_rows_free(mac, 'l');
        assert forall|i: int| 0 <= i < rows.len() implies !mentions(#[trigger] rows[i].2, "Ctrl+"@) by {
            lemma_free_not_mentions(rows[i].2, "Ctrl+"@, 3);
        }
    } else {
        assert(free_of(glyphs(mac).0, '⌘') && free_of(glyphs(mac).1, '⌘'));
        assert(free_of(glyphs(mac).2, '⌘') && free_of(glyphs(mac).3, '⌘'));
        lemma_rows_free(mac, '⌘');
        assert forall|i: int| 0 <= i < rows.len() implies !mentions(#[trigger] rows[i].2, "⌘"@) by {
            lemma_free_not_mentions(rows[i].2, "⌘"@, 0);
        }
    }
}

proof fn lemma_row_texts(mac: bool, i: int)
    requires
        0 <= i < 24,
    ensures
        shortcut_rows(mac)[i].1.len() > 0,
        shortcut_rows(mac)[i].2.len() > 0,
{
    reveal_strlit("打开文件…");
    reveal_strlit("新建文件…");
    reveal_strlit("刷新（重新扫描磁盘）");
    reveal_strlit("复制 / 剪切 / 粘贴");
    reveal_strlit("制作副本");
    reveal_strlit("快速查看（系统预览，仅 macOS）");
    reveal_strlit("删除条目");
    reveal_strlit("保存条目修改");
    reveal_strlit("新建子分支…");
    reveal_strlit("保存分支信息");
    reveal_strlit("删除分支");
    reveal_strlit("在 Finder 中显示分支");
    reveal_strlit("在 Finder 中显示内容");
    reveal_strlit("校验 bundle");
    reveal_strlit("列表视图 / 导图视图");
    reveal_strlit("放大 / 缩小 / 实际大小");
    reveal_strlit("导图画布：拖拽平移");
    reveal_strlit("小地图：单击 / 拖动 = 把视口移到该处");
    reveal_strlit("小地图：滚轮 = 缩放，双击 = 回到 100%");
    reveal_strlit("双击结构树行 / 导图节点 = 展开·收起");
    reveal_strlit("双击内容条目 = 文件夹展开·收起 / 文件用系统程序打开");
    reveal_strlit("拖放条目跨分支移动；外部文件拖入 = 导入当前分支");
    reveal_strlit("右键结构树行 / 导图节点 / 内容条目 = 对应操作菜单");
    reveal_strlit("对话框：Esc 取消 / 关闭，Enter 确定");
    reveal_strlit("空格");
    reveal_strlit("拖拽");
    reveal_strlit("单击 / 拖动");
    reveal_strlit("滚轮 / 双击");
    reveal_strlit("双击");
    reveal_strlit("拖放");
    reveal_strlit("右键");
    reveal_strlit("Esc / Enter");
    reveal_strlit("⌘");
    reveal_strlit("⌥");
    reveal_strlit("⇧");
    reveal_strlit("⌫");
    reveal_strlit("Ctrl+");
    reveal_strlit("Alt+");
    reveal_strlit("Shift+");
    reveal_strlit("Del");
}

proof fn lemma_glyph_row(i: int)
    requires
        0 <= i < 16,
        i != 5,
    ensures
        !plain_keys(shortcut_rows(false)[i].2),
        shortcut_rows(true)[i].2 != shortcut_rows(false)[i].2,
{
    reveal_strlit("⌘");
    reveal_strlit("⌥");
    reveal_strlit("⇧");
    reveal_strlit("Ctrl+");
    reveal_strlit("Alt+");
    reveal_strlit("Shift+");
    let a = shortcut_rows(true)[i].2;
    let b = shortcut_rows(false)[i].2;
    let t = if 8 <= i <= 11 || i == 13 {
        "Shift+"@
    } else if i == 12 {
        "Alt+"@
    } else {
        "Ctrl+"@
    };
    assert(forall|k: int| 0 <= k < t.len() ==> b[k] == t[k]);
    lemma_prefix_mentions(b, t);
    assert(a[0] != b[0]);
}

proof fn lemma_plain_row(i: int)
    requires
        i == 5 || 16 <= i < 24,
    ensures
        shortcut_rows(true)[i].2 == shortcut_rows(false)[i].2,
        plain_keys(shortcut_rows(false)[i].2),
{
    reveal_strlit("Ctrl+");
    reveal_strlit("Alt+");
    reveal_strlit("Shift+");
    reveal_strlit("Del");
    reveal_strlit("空格");
    reveal_strlit("拖拽");
    reveal_strlit("单击 / 拖动");
    reveal_strlit("滚轮 / 双击");
    reveal_strlit("双击");
    reveal_strlit("拖放");
    reveal_strlit("右键");
    reveal_strlit("Esc / Enter");
    let b = shortcut_rows(false)[i].2;
    assert(free_of(b, 'C') && free_of(b, 'A') && free_of(b, 'S') && free_of(b, 'D'));
    lemma_free_not_mentions(b, "Ctrl+"@, 0);
    lemma_free_not_mentions(b, "Alt+"@, 0);
    lemma_free_not_mentions(b, "Shift+"@, 0);
    lemma_free_not_mentions(b, "Del"@, 0);
}

/// A row's keys read the same on both platforms exactly when the
/// other-platform keys use none of the words `Ctrl+`, `Alt+`, `Shift+`,
/// `Del`: every modifier is a glyph on macOS and a word elsewhere.
pub proof fn law_shortcut_keys_follow_platform()
    ensures
        forall|i: int| 0 <= i < shortcut_rows(false).len() ==>
            (#[trigger] shortcut_rows(true)[i].2 == shortcut_rows(false)[i].2 <==> plain_keys(shortcut_rows(false)[i].2)),
{
    assert forall|i: int| 0 <= i < shortcut_rows(false).len() implies
        (#[trigger] shortcut_rows(true)[i].2 == shortcut_rows(false)[i].2 <==> plain_keys(shortcut_rows(false)[i].2)) by {
        if i == 5 || i >= 16 {
            lemma_plain_row(i);
        } else {
            lemma_glyph_row(i);
        }
    }
}

} // verus!
