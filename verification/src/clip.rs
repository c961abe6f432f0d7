//! The editor's clipboard items: recognising a copied path inside the open
//! bundle, and deciding where and under which name a pasted item lands.
use vstd::prelude::*;
use crate::chars::{after_last, chars_of, concat, join, join_exec, string_of};
use crate::model::{dir_name, Scan};
use crate::text::{basename, copy_candidate, dedup_name, first_free_copy, has_str, strs, to_char_vecs};
use crate::transfer::{comp_views, dir_prefix, dir_prefix_exec};

verus! {

/// A copied or cut item.
pub struct ClipItem {
    /// The item's absolute path, one component per item.
    pub src_path: Vec<String>,
    /// Its path relative to the branch it belongs to.
    pub name: String,
    /// `payload`, `asset`, `dir`, `node` or `branch`.
    pub role: String,
    /// Cut (move on paste) rather than copy.
    pub is_cut: bool,
}

/// The branch that holds `src`: the deepest branch directory that is a
/// leading part of it.
pub open spec fn holder_of(s: Scan, src: Seq<Seq<char>>) -> Option<int> {
    if exists|i: int| 0 <= i < s.visits.len() && dir_prefix(comp_views(s.visits[i].dir@), src) {
        Some(choose|i: int| 0 <= i < s.visits.len() && dir_prefix(comp_views(s.visits[i].dir@), src)
            && (forall|j: int| 0 <= j < i && dir_prefix(comp_views(s.visits[j].dir@), src) ==> s.visits[j].dir@.len() < s.visits[i].dir@.len())
            && (forall|j: int| i < j < s.visits.len() && dir_prefix(comp_views(s.visits[j].dir@), src) ==> s.visits[j].dir@.len() <= s.visits[i].dir@.len()))
    } else {
        None
    }
}

/// Path of `src` inside the directory `dir` (a leading part of it).
pub open spec fn rel_within(dir: Seq<Seq<char>>, src: Seq<Seq<char>>) -> Seq<char> {
    join(src.skip(dir.len() as int), "/"@)
}

/// The role a copied path carries: that of its registration in the holding
/// branch, else `dir` / `payload` by what it is on disk.
pub open spec fn clip_role(s: Scan, v: int, rel: Seq<char>, src_is_dir: bool) -> Seq<char> {
    let reg: Option<int> = match s.visits[v].meta {
        Some(m) => if exists|k: int| 0 <= k < m.entries.len() && m.entries@[k].path@ == rel {
            Some(choose|k: int| 0 <= k < m.entries.len() && m.entries@[k].path@ == rel
                && forall|j: int| 0 <= j < k ==> m.entries@[j].path@ != rel)
        } else {
            None
        },
        None => None,
    };
    match reg {
        Some(k) => s.visits[v].meta.unwrap().entries@[k].role@,
        None => if src_is_dir { "dir"@ } else { "payload"@ },
    }
}

/// Recognises a path from the system clipboard as an item of the open
/// bundle (`None` outside every branch, which makes it an import).
pub fn derive_clip(s: &Scan, src: &Vec<String>, is_cut: bool, src_is_dir: bool) -> (r: Option<ClipItem>)
    ensures
        match holder_of(*s, comp_views(src@)) {
            None => r is None,
            Some(v) => r matches Some(c) && {
                let rel = rel_within(comp_views(s.visits[v].dir@), comp_views(src@));
                &&& comp_views(c.src_path@) == comp_views(src@)
                &&& c.name@ == after_last(rel, '/')
                &&& c.role@ == clip_role(*s, v, rel, src_is_dir)
                &&& c.is_cut == is_cut
            },
        },
{
    let mut best: Option<usize> = None;
    let mut i: usize = 0;
    while i < s.visits.len()
        invariant
            i <= s.visits@.len(),
            match best {
                None => forall|j: int| 0 <= j < i ==> !dir_prefix(comp_views(s.visits[j].dir@), comp_views(src@)),
                Some(b) => b < i && dir_prefix(comp_views(s.visits[b as int].dir@), comp_views(src@))
                    && (forall|j: int| 0 <= j < b && dir_prefix(comp_views(s.visits[j].dir@), comp_views(src@)) ==> s.visits[j].dir@.len() < s.visits[b as int].dir@.len())
                    && (forall|j: int| b < j < i && dir_prefix(comp_views(s.visits[j].dir@), comp_views(src@)) ==> s.visits[j].dir@.len() <= s.visits[b as int].dir@.len()),
            },
        decreases s.visits.len() - i,
    {
        if dir_prefix_exec(&s.visits[i].dir, src) {
            let deeper = match best {
                Some(b) => s.visits[i].dir.len() > s.visits[b].dir.len(),
                None => true,
            };
            if deeper {
                best = Some(i);
            }
        }
        i += 1;
    }
    let v = match best {
        Some(b) => b,
        None => {
            return None;
        },
    };
    let ghost w = holder_of(*s, comp_views(src@));
    assert(w == Some(v as int)) by {
        let c = choose|c: int| 0 <= c < s.visits.len() && dir_prefix(comp_views(s.visits[c].dir@), comp_views(src@))
            && (forall|j: int| 0 <= j < c && dir_prefix(comp_views(s.visits[j].dir@), comp_views(src@)) ==> s.visits[j].dir@.len() < s.visits[c].dir@.len())
            && (forall|j: int| c < j < s.visits.len() && dir_prefix(comp_views(s.visits[j].dir@), comp_views(src@)) ==> s.visits[j].dir@.len() <= s.visits[c].dir@.len());
        if c < v {
            assert(s.visits[c].dir@.len() < s.visits[v as int].dir@.len());
            assert(s.visits[v as int].dir@.len() <= s.visits[c].dir@.len());
        } else if c > v {
            assert(s.visits[v as int].dir@.len() < s.visits[c].dir@.len());
            assert(s.visits[c].dir@.len() <= s.visits[v as int].dir@.len());
        }
    }
    let dir = &s.visits[v].dir;
    let mut rest: Vec<String> = Vec::new();
    let mut k = dir.len();
    while k < src.len()
        invariant
            dir@.len() <= k <= src@.len(),
            strs(rest@) == comp_views(src@).subrange(dir@.len() as int, k as int),
        decreases src.len() - k,
    {
        let ghost before = strs(rest@);
        rest.push(src[k].clone());
        assert(strs(rest@) =~= before.push(comp_views(src@)[k as int]));
        k += 1;
        assert(strs(rest@) =~= comp_views(src@).subrange(dir@.len() as int, k as int));
    }
    assert(comp_views(src@).skip(comp_views(dir@).len() as int) =~= comp_views(src@).subrange(dir@.len() as int, src@.len() as int));
    let mut slash: Vec<char> = Vec::new();
    slash.push('/');
    assert(slash@ == "/"@) by {
        reveal_strlit("/");
    }
    let rel = string_of(&join_exec(&to_char_vecs(&rest), &slash));
    let name = basename(rel.as_str());
    let role = match &s.visits[v].meta {
        Some(m) => {
            let mut found: Option<String> = None;
            let mut j: usize = 0;
            while j < m.entries.len()
                invariant
                    s.visits[v as int].meta == Some(*m),
                    j <= m.entries@.len(),
                    found is None ==> forall|t: int| 0 <= t < j ==> m.entries@[t].path@ != rel@,
                    found matches Some(f) ==> exists|t: int| 0 <= t < j && m.entries@[t].path@ == rel@
                        && (forall|q: int| 0 <= q < t ==> m.entries@[q].path@ != rel@) && f@ == m.entries@[t].role@,
                decreases m.entries.len() - j,
            {
                if found.is_none() && m.entries[j].path == rel {
                    found = Some(m.entries[j].role.clone());
                }
                j += 1;
            }
            match found {
                Some(f) => {
                    proof {
                        let t = choose|t: int| 0 <= t < m.entries@.len() && m.entries@[t].path@ == rel@
                            && (forall|q: int| 0 <= q < t ==> m.entries@[q].path@ != rel@) && f@ == m.entries@[t].role@;
                        let k = choose|k: int| 0 <= k < m.entries.len() && m.entries@[k].path@ == rel@
                            && forall|q: int| 0 <= q < k ==> m.entries@[q].path@ != rel@;
                        assert(k == t) by {
                            if k < t {
                            } else if k > t {
                                assert(m.entries@[t].path@ == rel@);
                            }
                        }
                    }
                    f
                },
                None => if src_is_dir { "dir".to_owned() } else { "payload".to_owned() },
            }
        },
        None => if src_is_dir { "dir".to_owned() } else { "payload".to_owned() },
    };
    let mut path: Vec<String> = Vec::new();
    let mut t: usize = 0;
    while t < src.len()
        invariant
            t <= src@.len(),
            path@ == src@.take(t as int),
        decreases src.len() - t,
    {
        path.push(src[t].clone());
        t += 1;
        assert(path@ =~= src@.take(t as int));
    }
    assert(src@.take(src@.len() as int) =~= src@);
    Some(ClipItem { src_path: path, name, role, is_cut })
}

/// Checks made before pasting an item into a branch: the source must still
/// exist, and a cut item cannot land in the directory it comes from.
pub open spec fn clip_precheck_of(src_exists: bool, is_cut: bool, from_target: bool) -> Option<Seq<char>> {
    if !src_exists {
        Some("剪贴板中的源条目已不存在"@)
    } else if is_cut && from_target {
        Some("源与目标是同一分支"@)
    } else {
        None
    }
}

/// The first refusal of a paste into a branch, if any. `from_target`: the
/// item's parent directory is the target branch directory.
pub fn clip_precheck(src_exists: bool, is_cut: bool, from_target: bool) -> (r: Option<String>)
    ensures
        match r {
            Some(m) => clip_precheck_of(src_exists, is_cut, from_target) == Some(m@),
            None => clip_precheck_of(src_exists, is_cut, from_target) is None,
        },
{
    if !src_exists {
        Some("剪贴板中的源条目已不存在".to_owned())
    } else if is_cut && from_target {
        Some("源与目标是同一分支".to_owned())
    } else {
        None
    }
}

/// How a pasted item lands in a branch.
pub struct ClipLanding {
    /// Name of the landed item in the branch directory.
    pub name: String,
    /// Role it is registered with.
    pub role: String,
    /// Status text.
    pub message: String,
}

/// Landing of a pasted content item or a cut branch in a branch whose
/// registered names are `existing` and whose depth is `depth`: content
/// takes a free Finder-style copy name of its file name; a cut branch
/// keeps its directory name and is registered as `node` under the root,
/// `branch` below. Other roles are refused; copied branches are recreated
/// under a new id (see `branch_copy_message`).
pub open spec fn landing_role(role: Seq<char>, depth: nat) -> Option<Seq<char>> {
    if role == "payload"@ || role == "asset"@ || role == "dir"@ {
        Some(role)
    } else if role == "node"@ || role == "branch"@ {
        Some(if depth == 0 { "node"@ } else { "branch"@ })
    } else {
        None
    }
}

/// The status text of a landed item.
pub open spec fn landing_message(role: Seq<char>, is_cut: bool, name: Seq<char>, src_title: Seq<char>, dst_title: Seq<char>) -> Seq<char> {
    if role == "dir"@ {
        if is_cut {
            "已从「"@ + src_title + "」移动「"@ + name + "/」→「"@ + dst_title + "」。"@
        } else {
            "已从剪贴板粘贴「"@ + name + "/」→「"@ + dst_title + "」。"@
        }
    } else if role == "node"@ || role == "branch"@ {
        "已从「"@ + src_title + "」移动分支「"@ + name + "」→「"@ + dst_title + "」。"@
    } else if is_cut {
        "已从「"@ + src_title + "」移动「"@ + name + "」→「"@ + dst_title + "」。"@
    } else {
        "已从剪贴板粘贴「"@ + name + "」→「"@ + dst_title + "」。"@
    }
}

/// Plans where a pasted item lands (content item, or cut branch).
pub fn clip_landing(
    clip: &ClipItem,
    existing: &Vec<String>,
    depth: usize,
    src_title: &str,
    dst_title: &str,
) -> (r: Result<ClipLanding, String>)
    requires
        !(clip.role@ == "node"@ || clip.role@ == "branch"@) || clip.is_cut,
    ensures
        match landing_role(clip.role@, depth as nat) {
            None => r matches Err(m) && m@ == "暂不支持 role = "@ + clip.role@ + " 的条目"@,
            Some(role) => r matches Ok(l) && {
                &&& l.role@ == role
                &&& if clip.role@ == "node"@ || clip.role@ == "branch"@ {
                    l.name@ == clip.name@
                } else {
                    exists|k: nat| #[trigger] copy_candidate(after_last(clip.name@, '/'), k) == l.name@
                        && first_free_copy(existing@, after_last(clip.name@, '/'), k)
                }
                &&& l.message@ == landing_message(clip.role@, clip.is_cut, l.name@, src_title@, dst_title@)
            },
        },
{
    let payload = "payload".to_owned();
    let asset = "asset".to_owned();
    let dir = "dir".to_owned();
    let node = "node".to_owned();
    let branch = "branch".to_owned();
    let s = chars_of(src_title);
    let d = chars_of(dst_title);
    if clip.role == payload || clip.role == asset || clip.role == dir {
        let name = dedup_name(existing.as_slice(), basename(clip.name.as_str()).as_str());
        let n = chars_of(name.as_str());
        proof {
            reveal_strlit("payload");
            reveal_strlit("asset");
            reveal_strlit("dir");
            reveal_strlit("node");
            reveal_strlit("branch");
        }
        assert(s@ == src_title@ && d@ == dst_title@ && n@ == name@);
        let msg = if clip.role == dir {
            if clip.is_cut {
                concat(&concat(&concat(&concat(&concat(&concat(&chars_of("已从「"), &s), &chars_of("」移动「")), &n), &chars_of("/」→「")), &d), &chars_of("」。"))
            } else {
                concat(&concat(&concat(&concat(&chars_of("已从剪贴板粘贴「"), &n), &chars_of("/」→「")), &d), &chars_of("」。"))
            }
        } else if clip.is_cut {
            concat(&concat(&concat(&concat(&concat(&concat(&chars_of("已从「"), &s), &chars_of("」移动「")), &n), &chars_of("」→「")), &d), &chars_of("」。"))
        } else {
            concat(&concat(&concat(&concat(&chars_of("已从剪贴板粘贴「"), &n), &chars_of("」→「")), &d), &chars_of("」。"))
        };
        proof {
            reveal_strlit("payload");
            reveal_strlit("asset");
            reveal_strlit("dir");
            reveal_strlit("node");
            reveal_strlit("branch");
        }
        assert("dir"@.len() == 3 && "node"@.len() == 4 && "branch"@.len() == 6 && "payload"@.len() == 7 && "asset"@.len() == 5);
        assert(clip.role@ == "dir"@ && clip.is_cut ==> msg@ == "已从「"@ + src_title@ + "」移动「"@ + name@ + "/」→「"@ + dst_title@ + "」。"@);
        assert(clip.role@ == "dir"@ && !clip.is_cut ==> msg@ == "已从剪贴板粘贴「"@ + name@ + "/」→「"@ + dst_title@ + "」。"@);
        assert(clip.role@ != "dir"@ && clip.is_cut ==> msg@ == "已从「"@ + src_title@ + "」移动「"@ + name@ + "」→「"@ + dst_title@ + "」。"@);
        assert(msg@ == landing_message(clip.role@, clip.is_cut, name@, src_title@, dst_title@));
        assert(landing_role(clip.role@, depth as nat) == Some(clip.role@));
        assert(exists|k: nat| #[trigger] copy_candidate(after_last(clip.name@, '/'), k) == name@
            && first_free_copy(existing@, after_last(clip.name@, '/'), k));
        return Ok(ClipLanding { name, role: clip.role.clone(), message: string_of(&msg) });
    }
    if clip.role == node || clip.role == branch {
        let role = if depth == 0 { "node".to_owned() } else { "branch".to_owned() };
        let n = chars_of(clip.name.as_str());
        let msg = concat(&concat(&concat(&concat(&concat(&concat(&chars_of("已从「"), &s), &chars_of("」移动分支「")), &n), &chars_of("」→「")), &d), &chars_of("」。"));
        proof {
            reveal_strlit("payload");
            reveal_strlit("asset");
            reveal_strlit("dir");
            reveal_strlit("node");
            reveal_strlit("branch");
        }
        return Ok(ClipLanding { name: clip.name.clone(), role, message: string_of(&msg) });
    }
    let msg = concat(&concat(&chars_of("暂不支持 role = "), &chars_of(clip.role.as_str())), &chars_of(" 的条目"));
    Err(string_of(&msg))
}

/// Status text of a copied branch, recreated under `new_id`.
pub fn branch_copy_message(clip_name: &str, new_id: &str, dst_title: &str) -> (r: String)
    ensures
        r@ == "已从剪贴板粘贴分支「"@ + clip_name@ + "」→「"@ + dst_title@ + "」（新 id「"@ + new_id@ + "」）。"@,
{
    let out = concat(&concat(&concat(&concat(&concat(&concat(&chars_of("已从剪贴板粘贴分支「"), &chars_of(clip_name)), &chars_of("」→「")), &chars_of(dst_title)), &chars_of("」（新 id「")), &chars_of(new_id)), &chars_of("」）。"));
    string_of(&out)
}

/// What happens to one item pasted into a content folder.
pub enum FolderPaste {
    /// Refused, with the reason.
    Refuse(String),
    /// A cut item already in that folder: nothing to do.
    Skip,
    /// Lands under this name.
    Land(String),
}

/// Decides one item pasted into a content folder whose entries are
/// `existing`: branches cannot enter folders, vanished sources are
/// refused, a cut item already there is skipped, anything else takes a
/// free copy name of its file name. `in_folder`: the item's parent is the
/// folder.
pub fn folder_paste_step(clip: &ClipItem, src_exists: bool, in_folder: bool, existing: &Vec<String>) -> (r: FolderPaste)
    ensures
        !(clip.role@ == "payload"@ || clip.role@ == "asset"@ || clip.role@ == "dir"@) ==> (r matches FolderPaste::Refuse(m) && m@ == clip.name@ + "：分支不能粘贴到内容文件夹"@),
        (clip.role@ == "payload"@ || clip.role@ == "asset"@ || clip.role@ == "dir"@) && !src_exists ==> (r matches FolderPaste::Refuse(m) && m@ == clip.name@ + "：源条目已不存在"@),
        (clip.role@ == "payload"@ || clip.role@ == "asset"@ || clip.role@ == "dir"@) && src_exists && clip.is_cut && in_folder ==> r is Skip,
        (clip.role@ == "payload"@ || clip.role@ == "asset"@ || clip.role@ == "dir"@) && src_exists && !(clip.is_cut && in_folder) ==> (r matches FolderPaste::Land(n) && exists|k: nat| #[trigger] copy_candidate(after_last(clip.name@, '/'), k) == n@
            && first_free_copy(existing@, after_last(clip.name@, '/'), k)),
{
    let content = clip.role == "payload".to_owned() || clip.role == "asset".to_owned() || clip.role == "dir".to_owned();
    proof {
        reveal_strlit("payload");
        reveal_strlit("asset");
        reveal_strlit("dir");
    }
    if !content {
        return FolderPaste::Refuse(string_of(&concat(&chars_of(clip.name.as_str()), &chars_of("：分支不能粘贴到内容文件夹"))));
    }
    if !src_exists {
        return FolderPaste::Refuse(string_of(&concat(&chars_of(clip.name.as_str()), &chars_of("：源条目已不存在"))));
    }
    if clip.is_cut && in_folder {
        return FolderPaste::Skip;
    }
    FolderPaste::Land(dedup_name(existing.as_slice(), basename(clip.name.as_str()).as_str()))
}

} // verus!
