//! The branch tree: child order, the visible rows of the structure tree, and
//! branch identity keys.
use vstd::prelude::*;
use crate::model::{
    dir_name, entry_is_branch, is_ancestor, scan_wf, Entry, KeySet, Meta, Scan, Visit,
};

verus! {

// ───────────────────────── child order ─────────────────────────

/// Paths of the branch registrations among `es`, in registration order.
pub open spec fn branch_paths(es: Seq<Entry>) -> Seq<Seq<char>>
    decreases es.len(),
{
    if es.len() == 0 {
        Seq::<Seq<char>>::empty()
    } else {
        let r = branch_paths(es.drop_last());
        if entry_is_branch(es.last()) {
            r.push(es.last().path@)
        } else {
            r
        }
    }
}

/// The registered order of a branch's children (empty without a `._meta`).
pub open spec fn branch_order(m: Option<Meta>) -> Seq<Seq<char>> {
    match m {
        Some(m) => branch_paths(m.entries@),
        None => Seq::<Seq<char>>::empty(),
    }
}

/// Index of the first occurrence of `x`.
pub open spec fn first_pos(xs: Seq<Seq<char>>, x: Seq<char>) -> Option<int> {
    if exists|j: int| 0 <= j < xs.len() && xs[j] == x {
        Some(choose|j: int| 0 <= j < xs.len() && xs[j] == x && forall|k: int| 0 <= k < j ==> xs[k] != x)
    } else {
        None
    }
}

/// Directory name of a branch, empty when it has none.
pub open spec fn name_or_empty(v: Visit) -> Seq<char> {
    match dir_name(v) {
        Some(n) => n,
        None => Seq::<char>::empty(),
    }
}

/// Sort key of child `c` under parent `p`: its position in the parent's
/// registered branch order, or past the end (by scan index) when unregistered.
#[verifier::opaque]
pub open spec fn child_key(s: Scan, p: int, c: int) -> int {
    let order = branch_order(s.visits[p].meta);
    match first_pos(order, name_or_empty(s.visits[c])) {
        Some(j) => j,
        None => order.len() + c,
    }
}

/// `a` comes before `b` among the children of `p`: smaller key, ties by scan
/// index (the sort is stable over scan order).
pub open spec fn child_before(s: Scan, p: int, a: int, b: int) -> bool {
    child_key(s, p, a) < child_key(s, p, b) || (child_key(s, p, a) == child_key(s, p, b) && a < b)
}

/// `c` is a child of `p` in the scan.
pub open spec fn is_child(s: Scan, p: int, c: int) -> bool {
    0 <= c < s.visits.len() && s.visits[c].parent == Some(p as usize)
}

/// `kids[p]` lists exactly the children of `p`, ordered by `child_before`.
pub open spec fn kids_exact(s: Scan, kids: Seq<Seq<usize>>) -> bool {
    &&& kids.len() == s.visits.len()
    &&& forall|p: int, c: usize| 0 <= p < kids.len() ==> (#[trigger] kids[p].contains(c) <==> is_child(s, p, c as int))
    &&& forall|p: int, i: int, j: int| 0 <= p < kids.len() && 0 <= i < j < kids[p].len() ==> child_before(s, p, #[trigger] kids[p][i] as int, #[trigger] kids[p][j] as int)
}

/// The registered branch paths of a list of entries.
fn branch_paths_exec(es: &Vec<Entry>) -> (r: Vec<String>)
    ensures
        r@.len() == branch_paths(es@).len(),
        forall|i: int| 0 <= i < r@.len() ==> #[trigger] r@[i]@ == branch_paths(es@)[i],
{
    let mut out: Vec<String> = Vec::new();
    let mut i: usize = 0;
    while i < es.len()
        invariant
            i <= es.len(),
            out@.len() == branch_paths(es@.take(i as int)).len(),
            forall|j: int| 0 <= j < out@.len() ==> #[trigger] out@[j]@ == branch_paths(es@.take(i as int))[j],
        decreases es.len() - i,
    {
        assert(es@.take(i + 1).drop_last() == es@.take(i as int));
        if es[i].is_branch() {
            out.push(es[i].path.clone());
        }
        i += 1;
    }
    assert(es@.take(es.len() as int) == es@);
    out
}

/// Position of the first `x` in `xs`.
fn first_pos_exec(xs: &Vec<String>, x: &String) -> (r: Option<usize>)
    ensures
        match r {
            Some(j) => first_pos(key_views(xs@), x@) == Some(j as int),
            None => first_pos(key_views(xs@), x@) is None,
        },
{
    let ghost v = key_views(xs@);
    let mut j: usize = 0;
    while j < xs.len()
        invariant
            j <= xs.len(),
            v == key_views(xs@),
            forall|k: int| 0 <= k < j ==> v[k] != x@,
        decreases xs.len() - j,
    {
        if xs[j] == *x {
            assert(v[j as int] == x@);
            let ghost w = choose|w: int| 0 <= w < v.len() && v[w] == x@ && forall|k: int| 0 <= k < w ==> v[k] != x@;
            assert(w == j) by {
                if w < j {
                } else if w > j {
                    assert(v[j as int] != x@);
                }
            }
            return Some(j);
        }
        j += 1;
    }
    None
}

/// The character sequences of a list of strings.
pub open spec fn key_views(v: Seq<String>) -> Seq<Seq<char>> {
    Seq::new(v.len(), |i: int| v[i]@)
}

fn dir_name_or_empty(v: &Visit) -> (r: String)
    ensures
        r@ == name_or_empty(*v),
{
    if v.dir.len() > 0 {
        v.dir[v.dir.len() - 1].clone()
    } else {
        String::new()
    }
}

/// Sort key of child `c` under parent `p`.
fn child_key_exec(s: &Scan, order: &Vec<String>, p: usize, c: usize) -> (r: u128)
    requires
        p < s.visits.len(),
        c < s.visits.len(),
        key_views(order@) == branch_order(s.visits@[p as int].meta),
    ensures
        r == child_key(*s, p as int, c as int),
{
    let name = dir_name_or_empty(&s.visits[c]);
    proof {
        reveal(child_key);
    }
    match first_pos_exec(order, &name) {
        Some(j) => j as u128,
        None => order.len() as u128 + c as u128,
    }
}

/// Inserts child `c` (larger than every listed child) into the ordered list
/// of children of `p`, after every child whose key is not greater.
fn insert_child(s: &Scan, p: usize, bucket: &mut Vec<usize>, keys: &mut Vec<u128>, c: usize, k: u128)
    requires
        old(keys)@.len() == old(bucket)@.len(),
        k == child_key(*s, p as int, c as int),
        forall|i: int| 0 <= i < old(bucket)@.len() ==> #[trigger] old(keys)@[i] == child_key(*s, p as int, old(bucket)@[i] as int),
        forall|i: int| 0 <= i < old(bucket)@.len() ==> #[trigger] old(bucket)@[i] < c,
        forall|i: int, j: int| 0 <= i < j < old(bucket)@.len() ==> child_before(*s, p as int, #[trigger] old(bucket)@[i] as int, #[trigger] old(bucket)@[j] as int),
    ensures
        final(keys)@.len() == final(bucket)@.len(),
        forall|i: int| 0 <= i < final(bucket)@.len() ==> #[trigger] final(keys)@[i] == child_key(*s, p as int, final(bucket)@[i] as int),
        forall|i: int| 0 <= i < final(bucket)@.len() ==> #[trigger] final(bucket)@[i] < c + 1,
        forall|i: int, j: int| 0 <= i < j < final(bucket)@.len() ==> child_before(*s, p as int, #[trigger] final(bucket)@[i] as int, #[trigger] final(bucket)@[j] as int),
        forall|x: usize| #[trigger] final(bucket)@.contains(x) <==> (old(bucket)@.contains(x) || x == c),
{
    let mut pos: usize = 0;
    while pos < bucket.len() && keys[pos] <= k
        invariant
            pos <= bucket@.len(),
            keys@.len() == bucket@.len(),
            forall|i: int| 0 <= i < pos ==> keys@[i] <= k,
        decreases bucket@.len() - pos,
    {
        pos += 1;
    }
    let ghost old_bucket = bucket@;
    let ghost old_keys = keys@;
    bucket.insert(pos, c);
    keys.insert(pos, k);
    assert forall|i: int| 0 <= i < bucket@.len() implies #[trigger] keys@[i] == child_key(*s, p as int, bucket@[i] as int) by {
        if i < pos {
            assert(bucket@[i] == old_bucket[i]);
        } else if i > pos {
            assert(bucket@[i] == old_bucket[i - 1]);
        }
    }
    assert forall|i: int| 0 <= i < bucket@.len() implies #[trigger] bucket@[i] < c + 1 by {
        if i < pos {
            assert(bucket@[i] == old_bucket[i]);
        } else if i > pos {
            assert(bucket@[i] == old_bucket[i - 1]);
        }
    }
    assert forall|x: usize| #[trigger] bucket@.contains(x) <==> (old_bucket.contains(x) || x == c) by {
        if bucket@.contains(x) {
            let i = choose|i: int| 0 <= i < bucket@.len() && bucket@[i] == x;
            if i < pos {
                assert(old_bucket[i] == x);
            } else if i > pos {
                assert(old_bucket[i - 1] == x);
            }
        }
        if old_bucket.contains(x) {
            let i = choose|i: int| 0 <= i < old_bucket.len() && old_bucket[i] == x;
            if i < pos {
                assert(bucket@[i] == x);
            } else {
                assert(bucket@[i + 1] == x);
            }
        }
        if x == c {
            assert(bucket@[pos as int] == x);
        }
    }
    assert forall|i: int, j: int| 0 <= i < j < bucket@.len() implies child_before(*s, p as int, #[trigger] bucket@[i] as int, #[trigger] bucket@[j] as int) by {
        if j < pos {
            assert(bucket@[i] == old_bucket[i] && bucket@[j] == old_bucket[j]);
        } else if j == pos {
            assert(bucket@[i] == old_bucket[i]);
            assert(old_keys[i] <= k);
        } else if i == pos {
            assert(bucket@[j] == old_bucket[j - 1]);
            assert(old_keys[pos as int] > k);
            if j - 1 > pos {
                assert(child_before(*s, p as int, old_bucket[pos as int] as int, old_bucket[j - 1] as int));
            }
        } else if i < pos {
            assert(bucket@[i] == old_bucket[i] && bucket@[j] == old_bucket[j - 1]);
        } else {
            assert(bucket@[i] == old_bucket[i - 1] && bucket@[j] == old_bucket[j - 1]);
        }
    }
}

/// For every branch, its direct children in registered order (directory
/// name order of the parent's `entries[]`), unregistered children after the
/// registered ones in scan order.
pub fn children_index(s: &Scan) -> (kids: Vec<Vec<usize>>)
    requires
        scan_wf(*s),
    ensures
        kids_exact(*s, kids@.map_values(|k: Vec<usize>| k@)),
{
    let n = s.visits.len();
    let mut kids: Vec<Vec<usize>> = Vec::new();
    let mut p: usize = 0;
    while p < n
        invariant
            n == s.visits.len(),
            p <= n,
            kids@.len() == p,
            forall|q: int, x: usize| 0 <= q < p ==> (#[trigger] kids@[q]@.contains(x) <==> is_child(*s, q, x as int)),
            forall|q: int, i: int, j: int| 0 <= q < p && 0 <= i < j < kids@[q]@.len() ==> child_before(*s, q, #[trigger] kids@[q]@[i] as int, #[trigger] kids@[q]@[j] as int),
        decreases n - p,
    {
        let order: Vec<String> = match &s.visits[p].meta {
            Some(m) => branch_paths_exec(&m.entries),
            None => Vec::new(),
        };
        assert(key_views(order@) =~= branch_order(s.visits@[p as int].meta));
        let mut bucket: Vec<usize> = Vec::new();
        let mut keys: Vec<u128> = Vec::new();
        let mut c: usize = 0;
        while c < n
            invariant
                n == s.visits.len(),
                p < n,
                c <= n,
                key_views(order@) == branch_order(s.visits@[p as int].meta),
                keys@.len() == bucket@.len(),
                forall|i: int| 0 <= i < bucket@.len() ==> #[trigger] keys@[i] == child_key(*s, p as int, bucket@[i] as int),
                forall|i: int| 0 <= i < bucket@.len() ==> #[trigger] bucket@[i] < c,
                forall|x: usize| #[trigger] bucket@.contains(x) <==> (is_child(*s, p as int, x as int) && x < c),
                forall|i: int, j: int| 0 <= i < j < bucket@.len() ==> child_before(*s, p as int, #[trigger] bucket@[i] as int, #[trigger] bucket@[j] as int),
            decreases n - c,
        {
            if s.visits[c].parent == Some(p) {
                let k = child_key_exec(s, &order, p, c);
                let ghost old_bucket = bucket@;
                insert_child(s, p, &mut bucket, &mut keys, c, k);
                assert forall|x: usize| #[trigger] bucket@.contains(x) <==> (is_child(*s, p as int, x as int) && x < c + 1) by {
                    if x < c {
                        assert(old_bucket.contains(x) <==> is_child(*s, p as int, x as int));
                    }
                }
            } else {
                assert forall|x: usize| #[trigger] bucket@.contains(x) <==> (is_child(*s, p as int, x as int) && x < c + 1) by {
                    if x == c && bucket@.contains(x) {
                        let i = choose|i: int| 0 <= i < bucket@.len() && bucket@[i] == x;
                        assert(bucket@[i] < c);
                    }
                }
            }
            c += 1;
        }
        kids.push(bucket);
        p += 1;
    }
    let ghost m = kids@.map_values(|k: Vec<usize>| k@);
    assert forall|q: int, x: usize| 0 <= q < m.len() implies (#[trigger] m[q].contains(x) <==> is_child(*s, q, x as int)) by {
        assert(m[q] == kids@[q]@);
    }
    assert forall|q: int, i: int, j: int| 0 <= q < m.len() && 0 <= i < j < m[q].len() implies child_before(*s, q, #[trigger] m[q][i] as int, #[trigger] m[q][j] as int) by {
        assert(m[q] == kids@[q]@);
    }
    kids
}

// ───────────────────────── structure-tree rows ─────────────────────────

/// One visible row of the structure tree (and node of the mind map).
pub struct VisibleRow {
    /// Index of the branch in the scan.
    pub visit: usize,
    pub depth: usize,
    pub title: String,
    pub type_str: String,
    pub expanded: bool,
    pub has_children: bool,
    /// The branch registers content (anything but `node` / `branch`).
    pub has_entries: bool,
}

/// Title of a branch, or the untitled placeholder.
pub open spec fn visit_title_of(v: Visit) -> Seq<char> {
    match v.meta {
        Some(m) => match m.title {
            Some(t) => t@,
            None => "（无标题）"@,
        },
        None => "（无标题）"@,
    }
}

/// Type label of a branch: its `type`, `root` for an untyped root, empty for
/// an untyped branch, or a parse-failure note.
pub open spec fn visit_type_of(v: Visit) -> Seq<char> {
    match v.meta {
        Some(m) => match m.branch_type {
            Some(t) => t@,
            None => if m.is_root { "root"@ } else { Seq::<char>::empty() },
        },
        None => "（._meta 解析失败）"@,
    }
}

/// The branch registers some content entry.
pub open spec fn has_content(v: Visit) -> bool {
    match v.meta {
        Some(m) => exists|i: int| 0 <= i < m.entries.len() && !entry_is_branch(#[trigger] m.entries@[i]),
        None => false,
    }
}

/// Branch titles.
pub fn visit_title(v: &Visit) -> (r: String)
    ensures
        r@ == visit_title_of(*v),
{
    match &v.meta {
        Some(m) => match &m.title {
            Some(t) => t.clone(),
            None => "（无标题）".to_owned(),
        },
        None => "（无标题）".to_owned(),
    }
}

/// Branch type labels.
pub fn visit_type(v: &Visit) -> (r: String)
    ensures
        r@ == visit_type_of(*v),
{
    match &v.meta {
        Some(m) => match &m.branch_type {
            Some(t) => t.clone(),
            None => if m.is_root { "root".to_owned() } else { String::new() },
        },
        None => "（._meta 解析失败）".to_owned(),
    }
}

/// Whether the branch registers content (enables "expand content").
pub fn has_content_entries(v: &Visit) -> (r: bool)
    ensures
        r == has_content(*v),
{
    match &v.meta {
        Some(m) => {
            let mut i: usize = 0;
            while i < m.entries.len()
                invariant
                    v.meta == Some(*m),
                    i <= m.entries.len(),
                    forall|j: int| 0 <= j < i ==> entry_is_branch(#[trigger] m.entries@[j]),
                decreases m.entries.len() - i,
            {
                if !m.entries[i].is_branch() {
                    assert(!entry_is_branch(m.entries@[i as int]));
                    assert(v.meta == Some(*m));
                    assert(exists|j: int| 0 <= j < m.entries.len() && !entry_is_branch(#[trigger] m.entries@[j]));
                    return true;
                }
                i += 1;
            }
            false
        },
        None => false,
    }
}

/// The branches shown under the roots `roots` of a subtree whose parent is
/// `floor`: each root in order, followed — when its key is expanded — by
/// the rows of its own children. (Children always come after their parent in
/// the scan; anything else is not shown.)
pub open spec fn forest_rows(s: Scan, kids: Seq<Seq<usize>>, roots: Seq<usize>, floor: int, exp: Set<Seq<char>>) -> Seq<usize>
    decreases s.visits.len() - floor, roots.len(),
{
    if roots.len() == 0 {
        Seq::<usize>::empty()
    } else {
        let before = forest_rows(s, kids, roots.drop_last(), floor, exp);
        let c = roots.last() as int;
        if floor < c < s.visits.len() && c < kids.len() {
            let below = if exp.contains(s.visits[c].rel@) {
                forest_rows(s, kids, kids[c], c, exp)
            } else {
                Seq::<usize>::empty()
            };
            before + seq![c as usize] + below
        } else {
            before
        }
    }
}

/// The rows of the subtree at `idx`: the branch, then (when expanded) its
/// children's rows.
pub open spec fn tree_rows(s: Scan, kids: Seq<Seq<usize>>, idx: int, exp: Set<Seq<char>>) -> Seq<usize> {
    if exp.contains(s.visits[idx].rel@) && 0 <= idx < kids.len() {
        seq![idx as usize] + forest_rows(s, kids, kids[idx], idx, exp)
    } else {
        seq![idx as usize]
    }
}

/// The row drawn for branch `idx`.
pub open spec fn row_of(r: VisibleRow, s: Scan, kids: Seq<Seq<usize>>, idx: int, exp: Set<Seq<char>>) -> bool {
    &&& r.visit == idx
    &&& r.depth == s.visits[idx].depth
    &&& r.title@ == visit_title_of(s.visits[idx])
    &&& r.type_str@ == visit_type_of(s.visits[idx])
    &&& r.expanded == exp.contains(s.visits[idx].rel@)
    &&& r.has_children == (kids[idx].len() > 0)
    &&& r.has_entries == has_content(s.visits[idx])
}

/// `out[base..]` draws the branches `ids` in order.
pub open spec fn rows_match(out: Seq<VisibleRow>, base: int, ids: Seq<usize>, s: Scan, kids: Seq<Seq<usize>>, exp: Set<Seq<char>>) -> bool {
    &&& out.len() == base + ids.len()
    &&& forall|j: int| 0 <= j < ids.len() ==> row_of(#[trigger] out[base + j], s, kids, ids[j] as int, exp)
}

/// The kids lists as sequences.
pub open spec fn kid_seqs(kids: Seq<Vec<usize>>) -> Seq<Seq<usize>> {
    kids.map_values(|k: Vec<usize>| k@)
}

fn make_row(s: &Scan, kids: &Vec<Vec<usize>>, idx: usize, expanded: &KeySet) -> (r: VisibleRow)
    requires
        idx < s.visits.len(),
        kids@.len() == s.visits.len(),
    ensures
        row_of(r, *s, kid_seqs(kids@), idx as int, expanded@),
{
    let v = &s.visits[idx];
    VisibleRow {
        visit: idx,
        depth: v.depth,
        title: visit_title(v),
        type_str: visit_type(v),
        expanded: expanded.contains(&v.rel),
        has_children: kids[idx].len() > 0,
        has_entries: has_content_entries(v),
    }
}

/// Appends the rows of the subtree at `idx` (depth-first; children only
/// below expanded branches; the root obeys its expanded state too).
pub fn dfs_rows(s: &Scan, kids: &Vec<Vec<usize>>, idx: usize, expanded: &KeySet, out: &mut Vec<VisibleRow>)
    requires
        scan_wf(*s),
        kids_exact(*s, kid_seqs(kids@)),
        idx < s.visits.len(),
    ensures
        final(out)@.len() >= old(out)@.len(),
        forall|i: int| 0 <= i < old(out)@.len() ==> final(out)@[i] == old(out)@[i],
        rows_match(final(out)@, old(out)@.len() as int, tree_rows(*s, kid_seqs(kids@), idx as int, expanded@), *s, kid_seqs(kids@), expanded@),
    decreases s.visits.len() - idx,
{
    let ghost ks = kid_seqs(kids@);
    let ghost base = out@.len() as int;
    let ghost start = out@;
    out.push(make_row(s, kids, idx, expanded));
    if !expanded.contains(&s.visits[idx].rel) {
        assert(tree_rows(*s, ks, idx as int, expanded@) =~= seq![idx]);
        assert(rows_match(out@, base, seq![idx], *s, ks, expanded@)) by {
            assert(out@[base + 0] == out@[base]);
        }
        return;
    }
    let children = &kids[idx];
    assert(ks[idx as int] == children@);
    let mut k: usize = 0;
    assert(children@.take(0) =~= Seq::<usize>::empty());
    assert(rows_match(out@, base, seq![idx] + forest_rows(*s, ks, children@.take(0), idx as int, expanded@), *s, ks, expanded@)) by {
        assert(seq![idx] + forest_rows(*s, ks, children@.take(0), idx as int, expanded@) =~= seq![idx]);
        assert(out@[base + 0] == out@[base]);
    }
    while k < children.len()
        invariant
            scan_wf(*s),
            kids_exact(*s, ks),
            ks == kid_seqs(kids@),
            idx < s.visits.len(),
            ks[idx as int] == children@,
            0 <= base <= out@.len(),
            k <= children@.len(),
            forall|i: int| 0 <= i < base ==> out@[i] == start[i],
            rows_match(out@, base, seq![idx] + forest_rows(*s, ks, children@.take(k as int), idx as int, expanded@), *s, ks, expanded@),
        decreases children@.len() - k,
    {
        let c = children[k];
        assert(children@.contains(c));
        assert(is_child(*s, idx as int, c as int));
        assert(idx < c);
        let ghost mid = out@.len() as int;
        let ghost pre = out@;
        dfs_rows(s, kids, c, expanded, out);
        proof {
            let done = seq![idx] + forest_rows(*s, ks, children@.take(k as int), idx as int, expanded@);
            let t = tree_rows(*s, ks, c as int, expanded@);
            assert(children@.take(k + 1).drop_last() =~= children@.take(k as int));
            assert(children@.take(k + 1).last() == c);
            assert(forest_rows(*s, ks, children@.take(k + 1), idx as int, expanded@)
                =~= forest_rows(*s, ks, children@.take(k as int), idx as int, expanded@) + t);
            assert(seq![idx] + forest_rows(*s, ks, children@.take(k + 1), idx as int, expanded@) =~= done + t);
            assert forall|j: int| 0 <= j < (done + t).len() implies row_of(#[trigger] out@[base + j], *s, ks, (done + t)[j] as int, expanded@) by {
                if j < done.len() {
                    assert(out@[base + j] == pre[base + j]);
                    assert(row_of(pre[base + j], *s, ks, done[j] as int, expanded@));
                } else {
                    let jj = j - done.len();
                    assert(out@[mid + jj] == out@[base + j]);
                    assert(row_of(out@[mid + jj], *s, ks, t[jj] as int, expanded@));
                }
            }
        }
        k += 1;
    }
    assert(children@.take(children@.len() as int) =~= children@);
}

// ───────────────────────── selection spine ─────────────────────────

/// Depth of the branch drawn by node `i` (`nodes[i].0` is its scan index,
/// `nodes[i].1` whether it is the selected one).
pub open spec fn node_depth(s: Scan, nodes: Seq<(usize, bool)>, i: int) -> int {
    s.visits[nodes[i].0 as int].depth as int
}

/// The first node marked selected.
pub open spec fn first_selected(nodes: Seq<(usize, bool)>) -> Option<int> {
    if exists|i: int| 0 <= i < nodes.len() && nodes[i].1 {
        Some(choose|i: int| 0 <= i < nodes.len() && nodes[i].1 && forall|k: int| 0 <= k < i ==> !nodes[k].1)
    } else {
        None
    }
}

/// Nodes from `j` on that are shallower than everything taken before:
/// each is the first later node whose depth is below the last one's `d`.
pub open spec fn spine_from(s: Scan, nodes: Seq<(usize, bool)>, j: int, d: int) -> Seq<int>
    decreases nodes.len() - j,
{
    if j < 0 || j >= nodes.len() {
        Seq::empty()
    } else if node_depth(s, nodes, j) < d {
        seq![j] + spine_from(s, nodes, j + 1, node_depth(s, nodes, j))
    } else {
        spine_from(s, nodes, j + 1, d)
    }
}

/// The ancestor chain of the selected node in a post-order node sequence
/// (children before parents): the selected node, then each first later node
/// of smaller depth, up to the root. Empty without a selected node.
pub open spec fn spine_of(s: Scan, nodes: Seq<(usize, bool)>) -> Seq<int> {
    match first_selected(nodes) {
        Some(st) => seq![st] + spine_from(s, nodes, st + 1, node_depth(s, nodes, st)),
        None => Seq::empty(),
    }
}

proof fn lemma_spine_from_zero(s: Scan, nodes: Seq<(usize, bool)>, j: int)
    requires
        j >= 0,
    ensures
        spine_from(s, nodes, j, 0) == Seq::<int>::empty(),
    decreases nodes.len() - j,
{
    if j < nodes.len() {
        lemma_spine_from_zero(s, nodes, j + 1);
    }
}

/// Indices (into `nodes`) of the selected node's ancestor chain, itself
/// first (see `spine_of`).
pub fn selection_spine(nodes: &Vec<(usize, bool)>, s: &Scan) -> (r: Vec<usize>)
    requires
        forall|i: int| 0 <= i < nodes@.len() ==> (#[trigger] nodes@[i]).0 < s.visits@.len(),
    ensures
        r@.len() == spine_of(*s, nodes@).len(),
        forall|i: int| 0 <= i < r@.len() ==> r@[i] as int == #[trigger] spine_of(*s, nodes@)[i],
{
    let mut start: usize = 0;
    while start < nodes.len() && !nodes[start].1
        invariant
            start <= nodes@.len(),
            forall|k: int| 0 <= k < start ==> !nodes@[k].1,
        decreases nodes.len() - start,
    {
        start += 1;
    }
    if start >= nodes.len() {
        return Vec::new();
    }
    let ghost st = start as int;
    assert(first_selected(nodes@) == Some(st)) by {
        let w = choose|i: int| 0 <= i < nodes@.len() && nodes@[i].1 && forall|k: int| 0 <= k < i ==> !nodes@[k].1;
        if w < st {
        } else if w > st {
            assert(nodes@[st].1);
        }
    }
    let ghost want = spine_of(*s, nodes@);
    let mut chain: Vec<usize> = Vec::new();
    chain.push(start);
    let mut d: usize = s.visits[nodes[start].0].depth;
    let mut j: usize = start + 1;
    while j < nodes.len()
        invariant_except_break
            st + 1 <= j <= nodes@.len(),
            forall|i: int| 0 <= i < nodes@.len() ==> (#[trigger] nodes@[i]).0 < s.visits@.len(),
            want == seq![st] + spine_from(*s, nodes@, st + 1, node_depth(*s, nodes@, st)),
            Seq::new(chain@.len(), |i: int| chain@[i] as int) + spine_from(*s, nodes@, j as int, d as int) == want,
        ensures
            Seq::new(chain@.len(), |i: int| chain@[i] as int) == want,
        decreases nodes.len() - j,
    {
        let ghost before = Seq::new(chain@.len(), |i: int| chain@[i] as int);
        let dj = s.visits[nodes[j].0].depth;
        assert(node_depth(*s, nodes@, j as int) == dj as int);
        if dj < d {
            assert(spine_from(*s, nodes@, j as int, d as int)
                == seq![j as int] + spine_from(*s, nodes@, j + 1, dj as int));
            chain.push(j);
            d = dj;
            assert(Seq::new(chain@.len(), |i: int| chain@[i] as int) =~= before.push(j as int));
            assert(before.push(j as int) + spine_from(*s, nodes@, j + 1, d as int)
                =~= before + (seq![j as int] + spine_from(*s, nodes@, j + 1, d as int)));
            if d == 0 {
                proof {
                    lemma_spine_from_zero(*s, nodes@, j + 1);
                }
                assert(before.push(j as int) + Seq::<int>::empty() =~= before.push(j as int));
                break;
            }
        } else {
            assert(spine_from(*s, nodes@, j as int, d as int) == spine_from(*s, nodes@, j + 1, d as int));
        }
        j += 1;
    }
    chain
}

} // verus!
