//! Properties of the library that span several operations or hold of
//! every input, stated over the same specifications the operations use.
use vstd::prelude::*;
use vstd::multiset::Multiset;
use crate::branch_move::{branch_entries, drop_pos, entry_pos, plan_outcome, PlanOutcome};
use crate::groups::{group_order, pull_members};
use crate::model::{dir_name, is_ancestor, toggled, Entry, Meta, Scan};
use crate::places::{import_name_ok, import_names_ok};
use crate::rename::{bad_name, changed_pairs, rename_plan_of, rename_walk, renamed};
use crate::chars::{join, lines, non_empty, split_by, strip_cr, trim, trim_all};
use crate::batch::{dedup_first, dedup_paths, recent_body, recent_lines, recent_offer, without, RECENT_MAX};
use crate::transfer::{clean_path, lemma_all_kept, lemma_split_append, lemma_split_join};
use crate::text::{lemma_non_empty_from, lemma_split_pieces_free, lemma_trim_shape, lemma_trim_sub};
use crate::text::{copy_candidate, first_free_copy, has_str, tag_seps, tags_of};

verus! {

/// Flipping the same key twice restores the set (content panels, content
/// folders, ⌘-click on a row of a non-empty selection).
pub proof fn law_toggle_twice(s: Set<Seq<char>>, k: Seq<char>)
    ensures
        toggled(toggled(s, k), k) == s,
{
    if s.contains(k) {
        assert(s.remove(k).insert(k) =~= s);
    } else {
        assert(s.insert(k).remove(k) =~= s);
    }
}

pub(crate) proof fn lemma_entry_pos_in(es: Seq<Entry>, name: Seq<char>)
    requires
        entry_pos(es, name) is Some,
    ensures
        0 <= entry_pos(es, name).unwrap() < es.len(),
        es[entry_pos(es, name).unwrap()].path@ == name,
        forall|k: int| 0 <= k < entry_pos(es, name).unwrap() ==> es[k].path@ != name,
{
    let j = choose|j: int| 0 <= j < es.len() && es[j].path@ == name;
    lemma_first_match(es, name, j);
}

proof fn lemma_first_match(es: Seq<Entry>, name: Seq<char>, j: int)
    requires
        0 <= j < es.len(),
        es[j].path@ == name,
    ensures
        exists|w: int| 0 <= w < es.len() && es[w].path@ == name && forall|k: int| 0 <= k < w ==> es[k].path@ != name,
    decreases j,
{
    if exists|k: int| 0 <= k < j && es[k].path@ == name {
        let k = choose|k: int| 0 <= k < j && es[k].path@ == name;
        lemma_first_match(es, name, k);
    } else {
        assert(0 <= j < es.len() && es[j].path@ == name && forall|k: int| 0 <= k < j ==> es[k].path@ != name);
    }
}

/// Reordering siblings only permutes the parent's branch registrations:
/// the same entries, the moved one at its new place.
pub proof fn law_reorder_keeps_registrations(
    s: Option<Scan>,
    src: int,
    target: int,
    after: bool,
    pm: Result<Meta, String>,
    sm: Result<Meta, String>,
)
    requires
        plan_outcome(s, src, target, after, pm, sm) is Reorder,
    ensures
        ({
            let new_order = plan_outcome(s, src, target, after, pm, sm)->Reorder_0;
            let old_order = branch_entries(pm.unwrap().entries@);
            &&& new_order.to_multiset() == old_order.to_multiset()
            &&& new_order.len() == old_order.len()
        }),
{
    broadcast use vstd::seq_lib::to_multiset_remove, vstd::seq_lib::to_multiset_insert, vstd::seq_lib::to_multiset_len,
        vstd::seq_lib::to_multiset_contains;
    broadcast use vstd::multiset::group_multiset_axioms;

    let sc = s.unwrap();
    let src_name = dir_name(sc.visits[src]).unwrap();
    let tgt_name = dir_name(sc.visits[target]).unwrap();
    let seq = branch_entries(pm.unwrap().entries@);
    lemma_entry_pos_in(seq, src_name);
    let sq = entry_pos(seq, src_name).unwrap();
    let rest = seq.remove(sq);
    let t = drop_pos(rest, tgt_name, after).unwrap();
    assert(0 <= t <= rest.len()) by {
        lemma_entry_pos_in(rest, tgt_name);
    }
    let x = seq[sq];
    assert(plan_outcome(s, src, target, after, pm, sm)->Reorder_0 == rest.insert(t, x));
    assert(seq.to_multiset().contains(x)) by {
        assert(seq.contains(x));
    }
    assert(seq.to_multiset().remove(x).insert(x) =~= seq.to_multiset());
}

/// Dropping a branch right below its previous sibling, or right above its
/// next sibling, keeps the order: the plan is a no-op (sibling directory
/// names registered once; `i` is the dragged branch's place in the order).
pub proof fn law_adjacent_drop_is_noop(
    s: Scan,
    src: int,
    target: int,
    after: bool,
    pm: Meta,
    sm: Result<Meta, String>,
    i: int,
)
    requires
        0 <= src < s.visits.len(),
        0 <= target < s.visits.len(),
        src != target,
        s.visits[src].parent is Some,
        s.visits[src].parent == s.visits[target].parent,
        dir_name(s.visits[src]) is Some,
        dir_name(s.visits[target]) is Some,
        ({
            let seq = branch_entries(pm.entries@);
            let src_name = dir_name(s.visits[src]).unwrap();
            let tgt_name = dir_name(s.visits[target]).unwrap();
            &&& forall|a: int, b: int| 0 <= a < b < seq.len() ==> #[trigger] seq[a].path@ != #[trigger] seq[b].path@
            &&& 0 <= i < seq.len()
            &&& seq[i].path@ == src_name
            &&& if after { i > 0 && seq[i - 1].path@ == tgt_name } else { i + 1 < seq.len() && seq[i + 1].path@ == tgt_name }
        }),
    ensures
        plan_outcome(Some(s), src, target, after, Ok::<Meta, String>(pm), sm) is Noop,
{
    let seq = branch_entries(pm.entries@);
    let src_name = dir_name(s.visits[src]).unwrap();
    let tgt_name = dir_name(s.visits[target]).unwrap();
    assert(entry_pos(seq, src_name) == Some(i)) by {
        lemma_entry_pos_in(seq, src_name);
        let w = entry_pos(seq, src_name).unwrap();
        if w < i {
            assert(seq[w].path@ != seq[i].path@);
        } else if w > i {
            assert(seq[i].path@ != src_name);
        }
    }
    let rest = seq.remove(i);
    let want: int = if after { i - 1 } else { i };
    assert(rest[want].path@ == tgt_name) by {
        if after {
            assert(rest[i - 1] == seq[i - 1]);
        } else {
            assert(rest[i] == seq[i + 1]);
        }
    }
    assert(entry_pos(rest, tgt_name) == Some(want)) by {
        lemma_entry_pos_in(rest, tgt_name);
        let w = entry_pos(rest, tgt_name).unwrap();
        if w < want {
            let ow = if w < i { w } else { w + 1 };
            let oi = if want < i { want } else { want + 1 };
            assert(rest[w] == seq[ow]);
            assert(rest[want] == seq[oi]);
            assert(seq[ow].path@ != seq[oi].path@);
        }
    }
    assert(drop_pos(rest, tgt_name, after) == Some(i));
}

/// A branch never moves into its own subtree: a cross-level drop whose new
/// parent is the dragged branch or lies below it is refused.
pub proof fn law_no_move_into_own_subtree(
    s: Scan,
    src: int,
    target: int,
    after: bool,
    pm: Meta,
    sm: Result<Meta, String>,
)
    requires
        0 <= src < s.visits.len(),
        0 <= target < s.visits.len(),
        src != target,
        s.visits[src].parent is Some,
        s.visits[target].parent is Some,
        s.visits[src].parent != s.visits[target].parent,
        dir_name(s.visits[src]) is Some,
        dir_name(s.visits[target]) is Some,
        ({
            let tp = s.visits[target].parent.unwrap() as int;
            tp == src || is_ancestor(s, src, tp)
        }),
    ensures
        plan_outcome(Some(s), src, target, after, Ok::<Meta, String>(pm), sm) == PlanOutcome::Fail("不能把分支移入其自身子树"@),
{
}

proof fn lemma_pull_members_permutes(seq: Seq<Entry>, moved: Seq<Seq<char>>)
    ensures
        pull_members(seq, moved).0.to_multiset().add(pull_members(seq, moved).1.to_multiset()) == seq.to_multiset(),
    decreases moved.len(),
{
    broadcast use vstd::seq_lib::to_multiset_remove, vstd::seq_lib::lemma_multiset_commutative,
        vstd::seq_lib::to_multiset_contains;
    broadcast use vstd::multiset::group_multiset_axioms;

    if moved.len() == 0 {
        assert(Seq::<Entry>::empty().to_multiset() =~= Multiset::<Entry>::empty());
        assert(seq.to_multiset().add(Multiset::empty()) =~= seq.to_multiset());
    } else {
        match entry_pos(seq, moved[0]) {
            Some(i) => {
                lemma_entry_pos_in(seq, moved[0]);
                lemma_pull_members_permutes(seq.remove(i), moved.drop_first());
                let (rest, members) = pull_members(seq.remove(i), moved.drop_first());
                assert((seq![seq[i]] + members).to_multiset() == seq![seq[i]].to_multiset().add(members.to_multiset()));
                assert(seq![seq[i]].to_multiset() =~= Multiset::singleton(seq[i])) by {
                    assert(seq![seq[i]] =~= Seq::<Entry>::empty().push(seq[i]));
                    vstd::seq_lib::to_multiset_build(Seq::<Entry>::empty(), seq[i]);
                    assert(Seq::<Entry>::empty().to_multiset() =~= Multiset::<Entry>::empty());
                }
                assert(seq.contains(seq[i]));
                assert(seq.to_multiset().remove(seq[i]).insert(seq[i]) =~= seq.to_multiset());
                assert(rest.to_multiset().add(seq![seq[i]].to_multiset().add(members.to_multiset()))
                    =~= seq.to_multiset());
            },
            None => {
                lemma_pull_members_permutes(seq, moved.drop_first());
            },
        }
    }
}

/// Landing a group of moved entries only permutes the target's content
/// order: every entry stays, none appears.
pub proof fn law_group_order_permutes(seq: Seq<Entry>, moved: Seq<Seq<char>>, pos: int)
    requires
        0 <= pos,
    ensures
        group_order(seq, moved, pos).to_multiset() == seq.to_multiset(),
{
    broadcast use vstd::seq_lib::lemma_multiset_commutative;
    broadcast use vstd::multiset::group_multiset_axioms;

    lemma_pull_members_permutes(seq, moved);
    let (rest, members) = pull_members(seq, moved);
    let at = if pos < rest.len() { pos } else { rest.len() as int };
    assert(rest =~= rest.take(at) + rest.skip(at));
    assert((rest.take(at) + members + rest.skip(at)).to_multiset()
        =~= rest.take(at).to_multiset().add(members.to_multiset()).add(rest.skip(at).to_multiset()));
    assert(rest.to_multiset() =~= rest.take(at).to_multiset().add(rest.skip(at).to_multiset()));
}

/// A copy name is never taken, and the original name is kept exactly when
/// it is free.
pub proof fn law_copy_name_is_free(existing: Seq<String>, name: Seq<char>, k: nat)
    requires
        first_free_copy(existing, name, k),
    ensures
        !has_str(existing, copy_candidate(name, k)),
        (k == 0) == !has_str(existing, name),
{
    if k > 0 {
        assert(has_str(existing, copy_candidate(name, 0)));
    }
}

/// Imported files get names that are new to the branch and pairwise
/// distinct.
pub proof fn law_import_names_fresh(existing: Seq<String>, names: Seq<Seq<char>>, r: Seq<String>)
    requires
        import_names_ok(existing, names, r),
    ensures
        forall|i: int| 0 <= i < r.len() ==> !has_str(existing, #[trigger] r[i]@),
        forall|i: int, j: int| 0 <= i < j < r.len() ==> #[trigger] r[i]@ != #[trigger] r[j]@,
{
    assert forall|i: int| 0 <= i < r.len() implies !has_str(existing, #[trigger] r[i]@) by {
        assert(import_name_ok(existing, names, r, i));
        let k = choose|k: nat| #[trigger] copy_candidate(names[i], k) == r[i]@ && first_free_copy(existing + r.take(i), names[i], k);
        if has_str(existing, r[i]@) {
            let t = choose|t: int| 0 <= t < existing.len() && existing[t]@ == r[i]@;
            assert((existing + r.take(i))[t] == existing[t]);
        }
    }
    assert forall|i: int, j: int| 0 <= i < j < r.len() implies #[trigger] r[i]@ != #[trigger] r[j]@ by {
        assert(import_name_ok(existing, names, r, j));
        let k = choose|k: nat| #[trigger] copy_candidate(names[j], k) == r[j]@ && first_free_copy(existing + r.take(j), names[j], k);
        assert((existing + r.take(j))[existing.len() + i] == r[i]);
    }
}

/// The rename walk keeps, for the items processed so far: the names taken
/// are the registered names minus the processed items plus the names given;
/// no given name is a later item's name; given names are pairwise distinct;
/// a given name that is registered is some item's own name.
proof fn lemma_rename_walk(
    items: Seq<Seq<char>>,
    i: int,
    taken: Set<Seq<char>>,
    acc: Seq<(Seq<char>, Seq<char>)>,
    mode: i32,
    find: Seq<char>,
    replace: Seq<char>,
    prefix: Seq<char>,
    suffix: Seq<char>,
    registered: Set<Seq<char>>,
)
    requires
        0 <= i <= items.len(),
        forall|a: int, b: int| 0 <= a < b < items.len() ==> items[a] != items[b],
        forall|a: int| 0 <= a < items.len() ==> registered.contains(#[trigger] items[a]),
        acc.len() == i,
        forall|k: int| 0 <= k < i ==> (#[trigger] acc[k]).0 == items[k],
        forall|x: Seq<char>| #[trigger] taken.contains(x) <==> ((registered.contains(x) && !(exists|k: int| 0 <= k < i && items[k] == x))
            || exists|k: int| 0 <= k < i && acc[k].1 == x),
        forall|k: int, m: int| 0 <= k < i <= m < items.len() ==> (#[trigger] acc[k]).1 != #[trigger] items[m],
        forall|a: int, b: int| 0 <= a < b < i ==> (#[trigger] acc[a]).1 != (#[trigger] acc[b]).1,
        forall|k: int| 0 <= k < i && registered.contains((#[trigger] acc[k]).1) ==> exists|m: int| 0 <= m < items.len() && items[m] == acc[k].1,
        rename_walk(items, i, taken, acc, mode, find, replace, prefix, suffix) is Ok,
    ensures
        ({
            let fin = rename_walk(items, i, taken, acc, mode, find, replace, prefix, suffix)->Ok_0;
            &&& fin.len() == items.len()
            &&& forall|k: int| 0 <= k < fin.len() ==> (#[trigger] fin[k]).0 == items[k]
            &&& forall|a: int, b: int| 0 <= a < b < fin.len() ==> (#[trigger] fin[a]).1 != (#[trigger] fin[b]).1
            &&& forall|k: int| 0 <= k < fin.len() && registered.contains((#[trigger] fin[k]).1) ==> exists|m: int| 0 <= m < items.len() && items[m] == fin[k].1
        }),
    decreases items.len() - i,
{
    if i < items.len() {
        let path = items[i];
        let n = renamed(mode, find, replace, prefix, suffix, path);
        assert(taken.contains(path)) by {
            if exists|k: int| 0 <= k < i && items[k] == path {
                let k = choose|k: int| 0 <= k < i && items[k] == path;
                assert(items[k] != items[i]);
            }
        }
        if n == path {
            let acc2 = acc.push((path, n));
            assert forall|x: Seq<char>| #[trigger] taken.contains(x) <==> ((registered.contains(x) && !(exists|k: int| 0 <= k < i + 1 && items[k] == x))
                || exists|k: int| 0 <= k < i + 1 && acc2[k].1 == x) by {
                if x == path {
                    assert(acc2[i].1 == x);
                } else {
                    if exists|k: int| 0 <= k < i + 1 && items[k] == x {
                        let k = choose|k: int| 0 <= k < i + 1 && items[k] == x;
                        assert(k < i);
                    }
                    if exists|k: int| 0 <= k < i + 1 && acc2[k].1 == x {
                        let k = choose|k: int| 0 <= k < i + 1 && acc2[k].1 == x;
                        assert(k < i);
                        assert(acc2[k] == acc[k]);
                    }
                    if exists|k: int| 0 <= k < i && acc[k].1 == x {
                        let k = choose|k: int| 0 <= k < i && acc[k].1 == x;
                        assert(acc2[k] == acc[k]);
                    }
                }
            }
            assert forall|k: int, m: int| 0 <= k < i + 1 <= m < items.len() implies (#[trigger] acc2[k]).1 != #[trigger] items[m] by {
                if k < i {
                    assert(acc2[k] == acc[k]);
                } else {
                    assert(items[i] != items[m]);
                }
            }
            assert forall|a: int, b: int| 0 <= a < b < i + 1 implies (#[trigger] acc2[a]).1 != (#[trigger] acc2[b]).1 by {
                assert(acc2[a] == acc[a]);
                if b < i {
                    assert(acc2[b] == acc[b]);
                } else {
                    assert(acc[a].1 != items[i]);
                }
            }
            assert forall|k: int| 0 <= k < i + 1 && registered.contains((#[trigger] acc2[k]).1) implies exists|m: int| 0 <= m < items.len() && items[m] == acc2[k].1 by {
                if k < i {
                    assert(acc2[k] == acc[k]);
                } else {
                    assert(items[i] == acc2[k].1);
                }
            }
            assert forall|k: int| 0 <= k < i + 1 implies (#[trigger] acc2[k]).0 == items[k] by {
                if k < i {
                    assert(acc2[k] == acc[k]);
                }
            }
            lemma_rename_walk(items, i + 1, taken, acc2, mode, find, replace, prefix, suffix, registered);
        } else if !bad_name(n) && !taken.remove(path).contains(n) {
            let acc2 = acc.push((path, n));
            let taken2 = taken.remove(path).insert(n);
            assert forall|m: int| i < m < items.len() implies n != #[trigger] items[m] by {
                assert(items[m] != items[i]);
                assert(registered.contains(items[m]));
                if exists|k: int| 0 <= k < i && items[k] == items[m] {
                    let k = choose|k: int| 0 <= k < i && items[k] == items[m];
                    assert(items[k] != items[m]);
                }
                assert(taken.contains(items[m]));
            }
            assert forall|x: Seq<char>| #[trigger] taken2.contains(x) <==> ((registered.contains(x) && !(exists|k: int| 0 <= k < i + 1 && items[k] == x))
                || exists|k: int| 0 <= k < i + 1 && acc2[k].1 == x) by {
                if x == n {
                    assert(acc2[i].1 == x);
                } else if x == path {
                    assert(items[i] == x);
                    if exists|k: int| 0 <= k < i + 1 && acc2[k].1 == x {
                        let k = choose|k: int| 0 <= k < i + 1 && acc2[k].1 == x;
                        assert(k < i);
                        assert(acc2[k] == acc[k]);
                        assert(acc[k].1 != items[i]);
                    }
                } else {
                    if exists|k: int| 0 <= k < i + 1 && items[k] == x {
                        let k = choose|k: int| 0 <= k < i + 1 && items[k] == x;
                        assert(k < i);
                    }
                    if exists|k: int| 0 <= k < i + 1 && acc2[k].1 == x {
                        let k = choose|k: int| 0 <= k < i + 1 && acc2[k].1 == x;
                        assert(k < i);
                        assert(acc2[k] == acc[k]);
                    }
                    if exists|k: int| 0 <= k < i && acc[k].1 == x {
                        let k = choose|k: int| 0 <= k < i && acc[k].1 == x;
                        assert(acc2[k] == acc[k]);
                    }
                }
            }
            assert forall|k: int, m: int| 0 <= k < i + 1 <= m < items.len() implies (#[trigger] acc2[k]).1 != #[trigger] items[m] by {
                if k < i {
                    assert(acc2[k] == acc[k]);
                } else {
                    assert(acc2[k].1 == n);
                }
            }
            assert forall|a: int, b: int| 0 <= a < b < i + 1 implies (#[trigger] acc2[a]).1 != (#[trigger] acc2[b]).1 by {
                assert(acc2[a] == acc[a]);
                if b < i {
                    assert(acc2[b] == acc[b]);
                } else {
                    assert(taken.contains(acc[a].1));
                    assert(acc[a].1 != items[i]);
                    assert(taken.remove(path).contains(acc[a].1));
                }
            }
            assert forall|k: int| 0 <= k < i + 1 && registered.contains((#[trigger] acc2[k]).1) implies exists|m: int| 0 <= m < items.len() && items[m] == acc2[k].1 by {
                if k < i {
                    assert(acc2[k] == acc[k]);
                } else {
                    assert(!taken.contains(n));
                    let w = choose|w: int| 0 <= w < i && items[w] == n;
                    assert(items[w] == acc2[k].1);
                }
            }
            assert forall|k: int| 0 <= k < i + 1 implies (#[trigger] acc2[k]).0 == items[k] by {
                if k < i {
                    assert(acc2[k] == acc[k]);
                }
            }
            lemma_rename_walk(items, i + 1, taken2, acc2, mode, find, replace, prefix, suffix, registered);
        }
    }
}

/// The changed pairs are pairs of the walk, keep distinct new names
/// distinct, and include every pair whose name changes.
proof fn lemma_changed_pairs(ps: Seq<(Seq<char>, Seq<char>)>)
    ensures
        forall|a: int| 0 <= a < changed_pairs(ps).len() ==> ps.contains(#[trigger] changed_pairs(ps)[a]) && changed_pairs(ps)[a].0 != changed_pairs(ps)[a].1,
        forall|k: int| 0 <= k < ps.len() && (#[trigger] ps[k]).0 != ps[k].1 ==> changed_pairs(ps).contains(ps[k]),
        (forall|a: int, b: int| 0 <= a < b < ps.len() ==> (#[trigger] ps[a]).1 != (#[trigger] ps[b]).1) ==>
            forall|a: int, b: int| 0 <= a < b < changed_pairs(ps).len() ==> (#[trigger] changed_pairs(ps)[a]).1 != (#[trigger] changed_pairs(ps)[b]).1,
    decreases ps.len(),
{
    if ps.len() > 0 {
        let q = ps.drop_last();
        lemma_changed_pairs(q);
        let c = changed_pairs(q);
        assert forall|a: int| 0 <= a < changed_pairs(ps).len() implies ps.contains(#[trigger] changed_pairs(ps)[a]) && changed_pairs(ps)[a].0 != changed_pairs(ps)[a].1 by {
            if a < c.len() {
                assert(changed_pairs(ps)[a] == c[a]);
                let j = choose|j: int| 0 <= j < q.len() && q[j] == c[a];
                assert(ps[j] == q[j]);
            } else {
                assert(changed_pairs(ps)[a] == ps.last());
                assert(ps[ps.len() - 1] == ps.last());
            }
        }
        assert forall|k: int| 0 <= k < ps.len() && (#[trigger] ps[k]).0 != ps[k].1 implies changed_pairs(ps).contains(ps[k]) by {
            if k < ps.len() - 1 {
                assert(q[k] == ps[k]);
                let j = choose|j: int| 0 <= j < c.len() && c[j] == q[k];
                assert(changed_pairs(ps)[j] == c[j]);
            } else {
                assert(changed_pairs(ps)[c.len() as int] == ps.last());
            }
        }
        if forall|a: int, b: int| 0 <= a < b < ps.len() ==> (#[trigger] ps[a]).1 != (#[trigger] ps[b]).1 {
            assert forall|a: int, b: int| 0 <= a < b < q.len() implies (#[trigger] q[a]).1 != (#[trigger] q[b]).1 by {
                assert(q[a] == ps[a] && q[b] == ps[b]);
            }
            assert forall|a: int, b: int| 0 <= a < b < changed_pairs(ps).len() implies (#[trigger] changed_pairs(ps)[a]).1 != (#[trigger] changed_pairs(ps)[b]).1 by {
                assert(changed_pairs(ps)[a] == c[a]);
                if b < c.len() {
                    assert(changed_pairs(ps)[b] == c[b]);
                } else {
                    let j = choose|j: int| 0 <= j < q.len() && q[j] == c[a];
                    assert(ps[j] == q[j]);
                    assert(ps[ps.len() - 1] == ps.last());
                }
            }
        }
    }
}

/// A batch rename never gives two items one name, and a new name that is
/// registered belongs to an item of the batch that is itself renamed away
/// (the selected items being distinct registered names).
pub proof fn law_rename_names_never_collide(
    mode: i32,
    find: Seq<char>,
    replace: Seq<char>,
    prefix: Seq<char>,
    suffix: Seq<char>,
    items: Seq<Seq<char>>,
    registered: Set<Seq<char>>,
)
    requires
        forall|a: int, b: int| 0 <= a < b < items.len() ==> items[a] != items[b],
        forall|a: int| 0 <= a < items.len() ==> registered.contains(#[trigger] items[a]),
        rename_plan_of(mode, find, replace, prefix, suffix, items, registered) is Ok,
    ensures
        ({
            let ps = rename_plan_of(mode, find, replace, prefix, suffix, items, registered)->Ok_0;
            &&& forall|a: int, b: int| 0 <= a < b < ps.len() ==> (#[trigger] ps[a]).1 != (#[trigger] ps[b]).1
            &&& forall|k: int| 0 <= k < ps.len() ==> (#[trigger] ps[k]).0 != ps[k].1
            &&& forall|k: int| 0 <= k < ps.len() && registered.contains((#[trigger] ps[k]).1)
                ==> exists|j: int| 0 <= j < ps.len() && ps[j].0 == ps[k].1
        }),
{
    let f = trim(find);
    let empty = Seq::<(Seq<char>, Seq<char>)>::empty();
    assert forall|x: Seq<char>| #[trigger] registered.contains(x) <==> ((registered.contains(x) && !(exists|k: int| 0 <= k < 0 && items[k] == x))
        || exists|k: int| 0 <= k < 0 && empty[k].1 == x) by {
    }
    lemma_rename_walk(items, 0, registered, empty, mode, f, replace, prefix, suffix, registered);
    let fin = rename_walk(items, 0, registered, empty, mode, f, replace, prefix, suffix)->Ok_0;
    lemma_changed_pairs(fin);
    let ps = changed_pairs(fin);
    assert forall|k: int| 0 <= k < ps.len() && registered.contains((#[trigger] ps[k]).1)
        implies exists|j: int| 0 <= j < ps.len() && ps[j].0 == ps[k].1 by {
        let t = choose|t: int| 0 <= t < fin.len() && fin[t] == ps[k];
        let m = choose|m: int| 0 <= m < items.len() && items[m] == fin[t].1;
        assert(fin[m].0 == items[m]);
        if fin[m].0 == fin[m].1 {
            assert(m != t);
            if m < t {
                assert(fin[m].1 != fin[t].1);
            } else {
                assert(fin[t].1 != fin[m].1);
            }
        }
        assert(ps.contains(fin[m]));
        let j = choose|j: int| 0 <= j < ps.len() && ps[j] == fin[m];
        assert(ps[j].0 == ps[k].1);
    }
}

/// The pieces of `lines` carry no line break.
proof fn lemma_lines_free(t: Seq<char>, k: int)
    requires
        0 <= k < lines(t).len(),
    ensures
        !lines(t)[k].contains('\n'),
{
    let nl = seq!['\n'];
    let p = split_by(t, nl);
    lemma_split_pieces_free(t, nl);
    crate::chars::lemma_split_by_nonempty(t, nl);
    let l = lines(t)[k];
    if l.contains('\n') {
        let j = choose|j: int| 0 <= j < l.len() && l[j] == '\n';
        assert(nl[0] == '\n');
        if k < p.len() - 1 {
            assert(l == strip_cr(p[k]));
            assert(l[j] == p[k][j]);
            assert(nl.contains(p[k][j]));
        } else {
            assert(p.last().len() > 0);
            assert(l == p.last());
            assert(nl.contains(p[p.len() - 1][j]));
        }
    }
}

/// Every kept line of the recent-list file is a clean path.
proof fn lemma_recent_lines_clean(t: Seq<char>, k: int)
    requires
        0 <= k < non_empty(trim_all(lines(t))).len(),
    ensures
        clean_path(non_empty(trim_all(lines(t)))[k]),
{
    let ls = lines(t);
    lemma_non_empty_from(trim_all(ls), k);
    let i = choose|i: int| 0 <= i < trim_all(ls).len() && trim_all(ls)[i] == non_empty(trim_all(ls))[k];
    let x = trim(ls[i]);
    lemma_trim_shape(ls[i]);
    lemma_trim_sub(ls[i]);
    lemma_lines_free(t, i);
    let (lo, hi) = choose|lo: int, hi: int| 0 <= lo <= hi <= ls[i].len() && trim(ls[i]) == ls[i].subrange(lo, hi);
    if x.contains('\n') {
        let j = choose|j: int| 0 <= j < x.len() && x[j] == '\n';
        assert(ls[i][lo + j] == '\n');
    }
}

/// `dedup_first` keeps the first item first and invents nothing.
proof fn lemma_dedup_first_head(xs: Seq<Seq<char>>)
    ensures
        xs.len() > 0 ==> dedup_first(xs).len() > 0 && dedup_first(xs)[0] == xs[0],
        forall|k: int| 0 <= k < dedup_first(xs).len() ==> xs.contains(#[trigger] dedup_first(xs)[k]),
    decreases xs.len(),
{
    if xs.len() > 0 {
        lemma_dedup_first_head(xs.drop_last());
        let r = dedup_first(xs.drop_last());
        if xs.len() == 1 {
            assert(r.len() == 0);
        }
        assert forall|k: int| 0 <= k < dedup_first(xs).len() implies xs.contains(#[trigger] dedup_first(xs)[k]) by {
            if k < r.len() {
                assert(dedup_first(xs)[k] == r[k]);
                let j = choose|j: int| 0 <= j < xs.drop_last().len() && xs.drop_last()[j] == r[k];
                assert(xs[j] == r[k]);
            } else {
                assert(xs[xs.len() - 1] == dedup_first(xs)[k]);
            }
        }
    }
}

/// The items left by `without` come from the list and differ from `p`.
proof fn lemma_without_from(xs: Seq<Seq<char>>, p: Seq<char>)
    ensures
        forall|k: int| 0 <= k < without(xs, p).len() ==> xs.contains(#[trigger] without(xs, p)[k]) && without(xs, p)[k] != p,
    decreases xs.len(),
{
    if xs.len() > 0 {
        lemma_without_from(xs.drop_last(), p);
        let r = without(xs.drop_last(), p);
        assert forall|k: int| 0 <= k < without(xs, p).len() implies xs.contains(#[trigger] without(xs, p)[k]) && without(xs, p)[k] != p by {
            if k < r.len() {
                assert(without(xs, p)[k] == r[k]);
                let j = choose|j: int| 0 <= j < xs.drop_last().len() && xs.drop_last()[j] == r[k];
                assert(xs[j] == r[k]);
            } else {
                assert(xs[xs.len() - 1] == without(xs, p)[k]);
            }
        }
    }
}

/// `dedup_paths` invents nothing.
proof fn lemma_dedup_paths_from(xs: Seq<Seq<char>>)
    ensures
        forall|k: int| 0 <= k < dedup_paths(xs).len() ==> xs.contains(#[trigger] dedup_paths(xs)[k]),
    decreases xs.len(),
{
    if xs.len() > 0 {
        lemma_dedup_paths_from(xs.drop_last());
        let r = dedup_paths(xs.drop_last());
        assert forall|k: int| 0 <= k < dedup_paths(xs).len() implies xs.contains(#[trigger] dedup_paths(xs)[k]) by {
            if k < r.len() {
                assert(dedup_paths(xs)[k] == r[k]);
                let j = choose|j: int| 0 <= j < xs.drop_last().len() && xs.drop_last()[j] == r[k];
                assert(xs[j] == r[k]);
            } else {
                assert(xs[xs.len() - 1] == dedup_paths(xs)[k]);
            }
        }
    }
}

/// After a bundle is opened, it is the first recent bundle offered (when
/// its directory exists and its path is one clean line).
pub proof fn law_recent_newest_first(text: Seq<char>, path: Seq<char>, dirs: Set<Seq<char>>)
    requires
        clean_path(path),
        dirs.contains(path),
    ensures
        recent_offer(recent_body(text, path), dirs).len() > 0,
        recent_offer(recent_body(text, path), dirs)[0] == path,
        recent_offer(recent_body(text, path), dirs).len() <= RECENT_MAX,
{
    broadcast use vstd::seq_lib::group_seq_properties;

    let old_lines = recent_lines(text);
    let rest = without(old_lines, path);
    lemma_without_from(old_lines, path);
    let list = seq![path] + rest;
    let kept = if list.len() > RECENT_MAX { list.take(RECENT_MAX as int) } else { list };
    let nl = seq!['\n'];
    assert("\n"@ =~= nl) by {
        reveal_strlit("\n");
    }
    lemma_dedup_paths_from(non_empty(trim_all(lines(text))));
    assert forall|i: int| 0 <= i < kept.len() implies clean_path(#[trigger] kept[i]) by {
        if i > 0 {
            assert(kept[i] == rest[i - 1]);
            assert(old_lines.contains(rest[i - 1]));
            let xs = non_empty(trim_all(lines(text)));
            let j = choose|j: int| 0 <= j < xs.len() && xs[j] == rest[i - 1];
            lemma_recent_lines_clean(text, j);
        } else {
            assert(kept[0] == path);
        }
    }
    assert forall|i: int| 0 <= i < kept.len() implies !(#[trigger] kept[i]).contains('\n') by {
        assert(clean_path(kept[i]));
    }
    let body = recent_body(text, path);
    assert(body == join(kept, "\n"@) + "\n"@);
    lemma_split_join(kept);
    assert(join(kept, "\n"@) + "\n"@ =~= join(kept, "\n"@) + seq!['\n'] + Seq::<char>::empty());
    lemma_split_append(join(kept, "\n"@), '\n', Seq::<char>::empty(), nl);
    let pieces = split_by(body, nl);
    assert(pieces == kept.push(Seq::<char>::empty()));
    assert(lines(body) =~= kept) by {
        assert forall|i: int| 0 <= i < kept.len() implies strip_cr(pieces[i]) == kept[i] by {
            assert(pieces[i] == kept[i]);
            assert(clean_path(kept[i]));
            assert(kept[i].last() != '\r');
        }
    }
    lemma_all_kept(kept);
    let keep = |l: Seq<char>| dirs.contains(l);
    assert(kept =~= seq![path] + kept.skip(1));
    kept.skip(1).lemma_filter_prepend(path, keep);
    let ok = kept.filter(keep);
    assert(ok[0] == path);
    lemma_dedup_first_head(ok);
}

/// Splitting at a separator between two texts splits each on its own.
proof fn lemma_split_concat(a: Seq<char>, c: char, b: Seq<char>, seps: Seq<char>)
    requires
        seps.contains(c),
    ensures
        split_by(a + seq![c] + b, seps) == split_by(a, seps) + split_by(b, seps),
    decreases b.len(),
{
    if b.len() == 0 {
        assert(a + seq![c] + b =~= a.push(c));
        assert((a + seq![c] + b).drop_last() =~= a);
        assert(split_by(a, seps).push(Seq::<char>::empty()) =~= split_by(a, seps) + seq![Seq::<char>::empty()]);
    } else {
        let b0 = b.drop_last();
        lemma_split_concat(a, c, b0, seps);
        crate::chars::lemma_split_by_nonempty(b0, seps);
        assert((a + seq![c] + b).drop_last() =~= a + seq![c] + b0);
        assert((a + seq![c] + b).last() == b.last());
        let x = split_by(a, seps);
        let y = split_by(b0, seps);
        if seps.contains(b.last()) {
            assert((x + y).push(Seq::<char>::empty()) =~= x + y.push(Seq::<char>::empty()));
        } else {
            assert((x + y).update((x + y).len() - 1, (x + y).last().push(b.last()))
                =~= x + y.update(y.len() - 1, y.last().push(b.last())));
        }
    }
}

/// Dropping empty pieces commutes with concatenation.
proof fn lemma_non_empty_concat(x: Seq<Seq<char>>, y: Seq<Seq<char>>)
    ensures
        non_empty(x + y) == non_empty(x) + non_empty(y),
    decreases y.len(),
{
    if y.len() == 0 {
        assert(x + y =~= x);
        assert(non_empty(x) + non_empty(y) =~= non_empty(x));
    } else {
        lemma_non_empty_concat(x, y.drop_last());
        assert((x + y).drop_last() =~= x + y.drop_last());
        assert((x + y).last() == y.last());
        if y.last().len() > 0 {
            assert((non_empty(x) + non_empty(y.drop_last())).push(y.last()) =~= non_empty(x) + non_empty(y.drop_last()).push(y.last()));
        }
    }
}

/// Tags typed as `a`, a comma, then `b` are the tags of `a` followed by
/// the tags of `b`.
pub proof fn law_tags_concat(a: Seq<char>, b: Seq<char>)
    ensures
        tags_of(a + seq![','] + b) == tags_of(a) + tags_of(b),
{
    assert(tag_seps()[0] == ',');
    lemma_split_concat(a, ',', b, tag_seps());
    let x = split_by(a, tag_seps());
    let y = split_by(b, tag_seps());
    assert(trim_all(x + y) =~= trim_all(x) + trim_all(y));
    lemma_non_empty_concat(trim_all(x), trim_all(y));
}

} // verus!
