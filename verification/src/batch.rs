//! Bookkeeping of long batch operations: the write session that batches
//! registration write-backs and trash calls, the grouping of paths revealed
//! in the file manager, and the list of recently opened bundles.
use vstd::prelude::*;
use crate::chars::{
    chars_of, concat, dec, dec_exec, join, join_exec, lines, lines_exec, non_empty, non_empty_exec, split_by,
    split_on, string_of, trim, trim_all, trim_each, views,
};
use crate::model::{list_contains, str_set, Meta};
use crate::branch_move::entry_pos;
use crate::registry::{registration_renamed, rename_registration, same_head, unregister, without_paths};
use crate::text::{strs, to_char_vecs, to_strings};

verus! {

/// Queued trash items are handed over together once this many are queued.
pub const TRASH_BATCH: usize = 200;

/// Registration changes are written back once this many accumulate.
pub const FLUSH_EVERY: usize = 200;

/// The counters of a batch write session: pending registration changes
/// and the entries queued for the trash.
pub struct WriteSession {
    /// Changes since the last write-back.
    pub dirty: usize,
    /// Entry paths queued for the trash.
    pub trash_queue: Vec<String>,
}

impl WriteSession {
    /// A fresh session.
    pub fn new() -> (r: WriteSession)
        ensures
            r.dirty == 0,
            r.trash_queue@.len() == 0,
    {
        WriteSession { dirty: 0, trash_queue: Vec::new() }
    }

    /// Queues an entry for the trash; returns whether the queue is full and
    /// must be handed to the trash now.
    pub fn queue_trash(&mut self, id: &str) -> (commit_now: bool)
        ensures
            strs(final(self).trash_queue@) == strs(old(self).trash_queue@).push(id@),
            final(self).dirty == old(self).dirty,
            commit_now == (final(self).trash_queue@.len() >= TRASH_BATCH),
    {
        let ghost before = strs(self.trash_queue@);
        self.trash_queue.push(id.to_owned());
        assert(strs(self.trash_queue@) =~= before.push(id@));
        self.trash_queue.len() >= TRASH_BATCH
    }

    /// After the queued entries went to the trash: hands them back for
    /// unregistering (each counts as one change) and empties the queue;
    /// returns them with whether a write-back is due.
    pub fn trash_done(&mut self) -> (r: (Vec<String>, bool))
        requires
            old(self).dirty + old(self).trash_queue@.len() <= usize::MAX,
        ensures
            strs(r.0@) == strs(old(self).trash_queue@),
            final(self).trash_queue@.len() == 0,
            final(self).dirty == old(self).dirty + old(self).trash_queue@.len(),
            r.1 == (final(self).dirty >= FLUSH_EVERY),
    {
        let mut queued: Vec<String> = Vec::new();
        std::mem::swap(&mut queued, &mut self.trash_queue);
        self.dirty = self.dirty + queued.len();
        let due = self.dirty >= FLUSH_EVERY;
        (queued, due)
    }

    /// After the trash call for the queued entries returned `outcome`: on
    /// success the queued paths leave `meta`'s registrations, each counting
    /// as one change, the queue empties, and the result says whether a
    /// write-back is due; on failure the registrations, the queue and the
    /// count are kept and the failure is returned.
    pub fn trash_finished(&mut self, meta: &mut Meta, outcome: &Result<(), String>) -> (r: Result<bool, String>)
        requires
            old(self).dirty + old(self).trash_queue@.len() <= usize::MAX,
        ensures
            match outcome {
                Err(m) => r matches Err(x) && x@ == m@ && *final(self) == *old(self) && *final(meta) == *old(meta),
                Ok(()) => {
                    &&& final(meta).entries@ == without_paths(old(meta).entries@, str_set(old(self).trash_queue@))
                    &&& same_head(*final(meta), *old(meta))
                    &&& final(self).trash_queue@.len() == 0
                    &&& final(self).dirty == old(self).dirty + old(self).trash_queue@.len()
                    &&& r == Ok::<bool, String>(final(self).dirty >= FLUSH_EVERY)
                },
            },
    {
        match outcome {
            Err(m) => Err(m.clone()),
            Ok(()) => {
                unregister(meta, &self.trash_queue);
                let mut queued: Vec<String> = Vec::new();
                std::mem::swap(&mut queued, &mut self.trash_queue);
                self.dirty = self.dirty + queued.len();
                Ok(self.dirty >= FLUSH_EVERY)
            },
        }
    }

    /// Records the rename of item `from` to `to` in the branch's
    /// registrations (`rename_registration`) and counts it as one change;
    /// returns whether a write-back is due. Refused with `未找到条目`, and
    /// nothing changed, when `from` is not registered.
    pub fn renamed(&mut self, meta: &mut Meta, from: &String, to: &String) -> (r: Result<bool, String>)
        requires
            old(self).dirty < usize::MAX,
        ensures
            same_head(*final(meta), *old(meta)),
            match entry_pos(old(meta).entries@, from@) {
                None => r matches Err(m) && m@ == "未找到条目"@ && *final(self) == *old(self) && *final(meta) == *old(meta),
                Some(i) => {
                    &&& registration_renamed(old(meta).entries@, final(meta).entries@, i, from@, to@)
                    &&& final(self).dirty == old(self).dirty + 1
                    &&& final(self).trash_queue == old(self).trash_queue
                    &&& r == Ok::<bool, String>(final(self).dirty >= FLUSH_EVERY)
                },
            },
    {
        match rename_registration(meta, from, to) {
            Err(m) => Err(m),
            Ok(()) => Ok(self.changed()),
        }
    }

    /// Counts one registration change; returns whether a write-back is due.
    pub fn changed(&mut self) -> (due: bool)
        requires
            old(self).dirty < usize::MAX,
        ensures
            final(self).dirty == old(self).dirty + 1,
            final(self).trash_queue == old(self).trash_queue,
            due == (final(self).dirty >= FLUSH_EVERY),
    {
        self.dirty = self.dirty + 1;
        self.dirty >= FLUSH_EVERY
    }

    /// Whether closing the session must write back (there are changes).
    pub fn needs_flush(&self) -> (r: bool)
        ensures
            r == (self.dirty != 0),
    {
        self.dirty != 0
    }

    /// Records a completed write-back.
    pub fn flushed(&mut self)
        ensures
            final(self).dirty == 0,
            final(self).trash_queue == old(self).trash_queue,
    {
        self.dirty = 0;
    }
}

// ───────────────────────── file-manager reveal ─────────────────────────

/// Parent of a path given by components (`None` for the root).
pub open spec fn parent_of(p: Seq<Seq<char>>) -> Option<Seq<Seq<char>>> {
    if p.len() > 0 { Some(p.drop_last()) } else { None }
}

/// Consecutive paths with the same parent share one group (one Finder
/// window each); the root forms a group of its own.
pub open spec fn reveal_groups_of(ps: Seq<Seq<Seq<char>>>) -> Seq<Seq<Seq<Seq<char>>>>
    decreases ps.len(),
{
    if ps.len() == 0 {
        Seq::empty()
    } else {
        let gs = reveal_groups_of(ps.drop_last());
        let p = ps.last();
        let par = match parent_of(p) { Some(q) => q, None => Seq::<Seq<char>>::empty() };
        if gs.len() > 0 && parent_of(gs.last()[0]) == Some(par) {
            gs.update(gs.len() - 1, gs.last().push(p))
        } else {
            gs.push(seq![p])
        }
    }
}

/// Components as character sequences.
pub open spec fn comps(p: Seq<String>) -> Seq<Seq<char>> {
    Seq::new(p.len(), |i: int| p[i]@)
}

/// Paths as component sequences.
pub open spec fn path_views(ps: Seq<Vec<String>>) -> Seq<Seq<Seq<char>>> {
    Seq::new(ps.len(), |i: int| comps(ps[i]@))
}

/// Groups as component sequences.
pub open spec fn group_views(gs: Seq<Vec<Vec<String>>>) -> Seq<Seq<Seq<Seq<char>>>> {
    Seq::new(gs.len(), |i: int| path_views(gs[i]@))
}

fn copy_path(p: &Vec<String>) -> (r: Vec<String>)
    ensures
        comps(r@) == comps(p@),
{
    let mut out: Vec<String> = Vec::new();
    let mut i: usize = 0;
    while i < p.len()
        invariant
            i <= p@.len(),
            out@ == p@.take(i as int),
        decreases p.len() - i,
    {
        out.push(p[i].clone());
        i += 1;
        assert(out@ =~= p@.take(i as int));
    }
    assert(p@.take(p@.len() as int) =~= p@);
    out
}

/// Whether `g`'s parent is `par` (component-wise).
fn parent_is(g: &Vec<String>, par: &Vec<String>, par_len: usize) -> (r: bool)
    requires
        par_len == par@.len(),
    ensures
        r == (parent_of(comps(g@)) == Some(comps(par@))),
{
    if g.len() == 0 {
        return false;
    }
    if g.len() - 1 != par_len {
        assert(comps(g@).drop_last().len() != comps(par@).len());
        return false;
    }
    let mut i: usize = 0;
    while i < par_len
        invariant
            par_len == par@.len(),
            g@.len() == par_len + 1,
            i <= par_len,
            forall|k: int| 0 <= k < i ==> g@[k]@ == par@[k]@,
        decreases par_len - i,
    {
        if g[i] != par[i] {
            assert(comps(g@).drop_last()[i as int] != comps(par@)[i as int]);
            return false;
        }
        i += 1;
    }
    assert(comps(g@).drop_last() =~= comps(par@));
    true
}

/// Groups the (resolved) paths to reveal by parent directory.
pub fn reveal_groups(paths: &Vec<Vec<String>>) -> (r: Vec<Vec<Vec<String>>>)
    ensures
        group_views(r@) == reveal_groups_of(path_views(paths@)),
{
    let ghost ps = path_views(paths@);
    let mut groups: Vec<Vec<Vec<String>>> = Vec::new();
    let mut i: usize = 0;
    while i < paths.len()
        invariant
            i <= paths@.len(),
            ps == path_views(paths@),
            group_views(groups@) == reveal_groups_of(ps.take(i as int)),
        decreases paths.len() - i,
    {
        assert(ps.take(i + 1).drop_last() =~= ps.take(i as int));
        assert(ps.take(i + 1).last() == comps(paths@[i as int]@));
        let p = &paths[i];
        let par: Vec<String> = if p.len() > 0 {
            let mut q: Vec<String> = Vec::new();
            let mut k: usize = 0;
            while k + 1 < p.len()
                invariant
                    k + 1 <= p@.len(),
                    q@ == p@.take(k as int),
                decreases p.len() - k,
            {
                q.push(p[k].clone());
                k += 1;
                assert(q@ =~= p@.take(k as int));
            }
            assert(comps(q@) =~= comps(p@).drop_last());
            q
        } else {
            Vec::new()
        };
        assert(comps(par@) == match parent_of(comps(p@)) { Some(q) => q, None => Seq::<Seq<char>>::empty() }) by {
            if p@.len() == 0 {
                assert(comps(par@) =~= Seq::<Seq<char>>::empty());
            }
        }
        let n = groups.len();
        let ghost gv = group_views(groups@);
        proof {
            lemma_groups_nonempty(ps.take(i as int));
            if n > 0 {
                assert(gv[n - 1].len() > 0);
                assert(gv[n - 1] == path_views(groups@[n - 1]@));
            }
        }
        let joins = if n > 0 { parent_is(&groups[n - 1][0], &par, par.len()) } else { false };
        if joins {
            let mut last = groups.pop().unwrap();
            let ghost lv = path_views(last@);
            last.push(copy_path(p));
            assert(path_views(last@) =~= lv.push(comps(p@)));
            groups.push(last);
            assert(group_views(groups@) =~= gv.update(gv.len() - 1, gv.last().push(comps(p@))));
        } else {
            proof {
                if n > 0 {
                    lemma_groups_nonempty(ps.take(i as int));
                    assert(gv.last()[0] == comps(groups@[n - 1]@[0]@));
                }
            }
            let mut g: Vec<Vec<String>> = Vec::new();
            g.push(copy_path(p));
            assert(path_views(g@) =~= seq![comps(p@)]);
            groups.push(g);
            assert(group_views(groups@) =~= gv.push(seq![comps(p@)]));
        }
        i += 1;
    }
    assert(ps.take(paths@.len() as int) =~= ps);
    groups
}

/// Every group holds at least one path.
pub proof fn lemma_groups_nonempty(ps: Seq<Seq<Seq<char>>>)
    ensures
        forall|g: int| 0 <= g < reveal_groups_of(ps).len() ==> (#[trigger] reveal_groups_of(ps)[g]).len() > 0,
    decreases ps.len(),
{
    if ps.len() > 0 {
        lemma_groups_nonempty(ps.drop_last());
        let gs = reveal_groups_of(ps.drop_last());
        let p = ps.last();
        let par = match parent_of(p) { Some(q) => q, None => Seq::<Seq<char>>::empty() };
        let ng = reveal_groups_of(ps);
        assert forall|g: int| 0 <= g < ng.len() implies (#[trigger] ng[g]).len() > 0 by {
            if gs.len() > 0 && parent_of(gs.last()[0]) == Some(par) {
                if g < gs.len() - 1 {
                    assert(ng[g] == gs[g]);
                } else {
                    assert(ng[g] == gs.last().push(p));
                }
            } else {
                if g < gs.len() {
                    assert(ng[g] == gs[g]);
                } else {
                    assert(ng[g] == seq![p]);
                }
            }
        }
    }
}

/// All paths of the groups, in order.
pub open spec fn flatten_groups(gs: Seq<Seq<Seq<Seq<char>>>>) -> Seq<Seq<Seq<char>>>
    decreases gs.len(),
{
    if gs.len() == 0 {
        Seq::empty()
    } else {
        flatten_groups(gs.drop_last()) + gs.last()
    }
}

/// Grouping neither drops, adds nor reorders paths.
pub proof fn lemma_reveal_groups_cover(ps: Seq<Seq<Seq<char>>>)
    ensures
        flatten_groups(reveal_groups_of(ps)) == ps,
    decreases ps.len(),
{
    if ps.len() > 0 {
        let gs = reveal_groups_of(ps.drop_last());
        lemma_reveal_groups_cover(ps.drop_last());
        let p = ps.last();
        let par = match parent_of(p) { Some(q) => q, None => Seq::<Seq<char>>::empty() };
        if gs.len() > 0 && parent_of(gs.last()[0]) == Some(par) {
            let ng = gs.update(gs.len() - 1, gs.last().push(p));
            assert(ng.drop_last() =~= gs.drop_last());
            assert(flatten_groups(ng) == flatten_groups(gs.drop_last()) + gs.last().push(p));
            assert(flatten_groups(gs) == flatten_groups(gs.drop_last()) + gs.last());
            assert(flatten_groups(ng) =~= flatten_groups(gs).push(p));
        } else {
            let ng = gs.push(seq![p]);
            assert(ng.drop_last() =~= gs);
            assert(flatten_groups(ng) =~= flatten_groups(gs).push(p));
        }
        assert(ps.drop_last().push(p) =~= ps);
    } else {
        assert(flatten_groups(Seq::<Seq<Seq<Seq<char>>>>::empty()) =~= ps);
    }
}

// ───────────────────────── recently opened ─────────────────────────

/// The recent list keeps at most this many bundles.
pub const RECENT_MAX: usize = 10;

/// The paths kept in the recent-list file: its trimmed non-empty lines,
/// without later lines that are the same path as an earlier one.
pub open spec fn recent_lines(text: Seq<char>) -> Seq<Seq<char>> {
    dedup_paths(non_empty(trim_all(lines(text))))
}

/// `xs` without later repeats.
pub open spec fn dedup_first(xs: Seq<Seq<char>>) -> Seq<Seq<char>>
    decreases xs.len(),
{
    if xs.len() == 0 {
        xs
    } else {
        let r = dedup_first(xs.drop_last());
        if r.contains(xs.last()) { r } else { r.push(xs.last()) }
    }
}

/// A piece of a path between slashes that names something: not empty and
/// not `.`.
pub open spec fn is_component(x: Seq<char>) -> bool {
    x.len() > 0 && x != seq!['.']
}

/// The components of a path as `Path` compares them (Unix): `/` first for
/// an absolute path, `.` first for a relative one that starts with `.`,
/// then the pieces between slashes that name something. `/x/` and `/x`, or
/// `a//b` and `a/./b`, are the same path.
pub open spec fn path_key(p: Seq<char>) -> Seq<Seq<char>> {
    let pieces = split_by(p, seq!['/']);
    let head = if p.len() > 0 && p[0] == '/' {
        seq![seq!['/']]
    } else if pieces.len() > 0 && pieces[0] == seq!['.'] {
        seq![seq!['.']]
    } else {
        Seq::<Seq<char>>::empty()
    };
    head + pieces.filter(|x: Seq<char>| is_component(x))
}

/// Some item of `xs` is the same path as `p`.
pub open spec fn has_path(xs: Seq<Seq<char>>, p: Seq<char>) -> bool {
    exists|j: int| 0 <= j < xs.len() && path_key(#[trigger] xs[j]) == path_key(p)
}

/// `xs` without later items that are the same path as an earlier one.
pub open spec fn dedup_paths(xs: Seq<Seq<char>>) -> Seq<Seq<char>>
    decreases xs.len(),
{
    if xs.len() == 0 {
        xs
    } else {
        let r = dedup_paths(xs.drop_last());
        if has_path(r, xs.last()) { r } else { r.push(xs.last()) }
    }
}

/// `xs` without the items that are the same path as `p`.
pub open spec fn without(xs: Seq<Seq<char>>, p: Seq<char>) -> Seq<Seq<char>>
    decreases xs.len(),
{
    if xs.len() == 0 {
        xs
    } else {
        let r = without(xs.drop_last(), p);
        if path_key(xs.last()) == path_key(p) { r } else { r.push(xs.last()) }
    }
}

/// The file body after opening `path`: the path moved to the front of the
/// kept list (no path twice, as paths compare), at most `RECENT_MAX` lines,
/// each ending in a newline.
pub open spec fn recent_body(text: Seq<char>, path: Seq<char>) -> Seq<char> {
    let list = seq![path] + without(recent_lines(text), path);
    let kept = if list.len() > RECENT_MAX { list.take(RECENT_MAX as int) } else { list };
    join(kept, "\n"@) + "\n"@
}

/// The components of a path (see `path_key`).
pub fn path_key_exec(p: &Vec<char>) -> (r: Vec<Vec<char>>)
    ensures
        views(r@) == path_key(p@),
{
    let mut slash: Vec<char> = Vec::new();
    slash.push('/');
    assert(slash@ =~= seq!['/']);
    let pieces = split_on(p.as_slice(), slash.as_slice());
    let ghost ps = views(pieces@);
    let ghost keep = |x: Seq<char>| is_component(x);
    let mut out: Vec<Vec<char>> = Vec::new();
    let mut dot: Vec<char> = Vec::new();
    dot.push('.');
    assert(dot@ =~= seq!['.']);
    if p.len() > 0 && p[0] == '/' {
        out.push(slash.clone());
    } else if pieces.len() > 0 && crate::chars::seq_eq(pieces[0].as_slice(), dot.as_slice()) {
        out.push(dot.clone());
    }
    let ghost head = views(out@);
    assert(ps.take(0) =~= Seq::<Seq<char>>::empty());
    assert(views(out@) =~= head + ps.take(0).filter(keep));
    let mut i: usize = 0;
    while i < pieces.len()
        invariant
            i <= pieces@.len(),
            ps == views(pieces@),
            dot@ == seq!['.'],
            keep == (|x: Seq<char>| is_component(x)),
            views(out@) == head + ps.take(i as int).filter(keep),
        decreases pieces.len() - i,
    {
        let ghost before = views(out@);
        let take = pieces[i].len() > 0 && !crate::chars::seq_eq(pieces[i].as_slice(), dot.as_slice());
        assert(take == keep(ps[i as int]));
        if take {
            out.push(crate::chars::subvec(pieces[i].as_slice(), 0, pieces[i].len()));
            assert(pieces@[i as int]@.subrange(0, pieces@[i as int]@.len() as int) =~= pieces@[i as int]@);
            assert(views(out@) =~= before.push(ps[i as int]));
        }
        assert(ps.take(i + 1).filter(keep) == if keep(ps[i as int]) { ps.take(i as int).filter(keep).push(ps[i as int]) } else { ps.take(i as int).filter(keep) }) by {
            reveal(Seq::filter);
            assert(ps.take(i + 1).drop_last() =~= ps.take(i as int));
            assert(ps.take(i + 1).last() == ps[i as int]);
        }
        i += 1;
    }
    assert(ps.take(ps.len() as int) =~= ps);
    out
}

/// Whether two component lists are the same.
fn keys_eq(a: &Vec<Vec<char>>, b: &Vec<Vec<char>>) -> (r: bool)
    ensures
        r == (views(a@) == views(b@)),
{
    if a.len() != b.len() {
        assert(views(a@).len() != views(b@).len());
        return false;
    }
    let mut i: usize = 0;
    while i < a.len()
        invariant
            a@.len() == b@.len(),
            i <= a@.len(),
            forall|j: int| 0 <= j < i ==> a@[j]@ == b@[j]@,
        decreases a.len() - i,
    {
        if !crate::chars::seq_eq(a[i].as_slice(), b[i].as_slice()) {
            assert(views(a@)[i as int] != views(b@)[i as int]);
            return false;
        }
        i += 1;
    }
    assert(views(a@) =~= views(b@));
    true
}

/// Whether `p` is the same path as one of `xs`.
fn has_path_exec(xs: &Vec<Vec<char>>, p: &Vec<char>) -> (r: bool)
    ensures
        r == has_path(views(xs@), p@),
{
    let kp = path_key_exec(p);
    let mut j: usize = 0;
    while j < xs.len()
        invariant
            j <= xs@.len(),
            views(kp@) == path_key(p@),
            forall|t: int| 0 <= t < j ==> path_key(#[trigger] views(xs@)[t]) != path_key(p@),
        decreases xs.len() - j,
    {
        let kx = path_key_exec(&xs[j]);
        assert(views(xs@)[j as int] == xs@[j as int]@);
        if keys_eq(&kx, &kp) {
            assert(path_key(views(xs@)[j as int]) == path_key(p@));
            return true;
        }
        j += 1;
    }
    false
}

/// Drops later items that are the same path as an earlier one.
fn dedup_paths_exec(xs: &Vec<Vec<char>>) -> (r: Vec<Vec<char>>)
    ensures
        views(r@) == dedup_paths(views(xs@)),
{
    let ghost all = views(xs@);
    let mut out: Vec<Vec<char>> = Vec::new();
    let mut i: usize = 0;
    while i < xs.len()
        invariant
            i <= xs@.len(),
            all == views(xs@),
            views(out@) == dedup_paths(all.take(i as int)),
        decreases xs.len() - i,
    {
        assert(all.take(i + 1).drop_last() =~= all.take(i as int));
        assert(all.take(i + 1).last() == xs@[i as int]@);
        if !has_path_exec(&out, &xs[i]) {
            let ghost before = views(out@);
            out.push(crate::chars::subvec(&xs[i], 0, xs[i].len()));
            assert(xs@[i as int]@.subrange(0, xs@[i as int]@.len() as int) =~= xs@[i as int]@);
            assert(views(out@) =~= before.push(all[i as int]));
        }
        i += 1;
    }
    assert(all.take(xs@.len() as int) =~= all);
    out
}

fn dedup_exec(xs: &Vec<Vec<char>>) -> (r: Vec<Vec<char>>)
    ensures
        views(r@) == dedup_first(views(xs@)),
{
    let ghost all = views(xs@);
    let mut out: Vec<Vec<char>> = Vec::new();
    let mut i: usize = 0;
    while i < xs.len()
        invariant
            i <= xs@.len(),
            all == views(xs@),
            views(out@) == dedup_first(all.take(i as int)),
        decreases xs.len() - i,
    {
        assert(all.take(i + 1).drop_last() =~= all.take(i as int));
        let mut seen = false;
        let mut j: usize = 0;
        while j < out.len()
            invariant
                i < xs@.len(),
                j <= out@.len(),
                seen == exists|t: int| 0 <= t < j && #[trigger] views(out@)[t] == xs@[i as int]@,
            decreases out.len() - j,
        {
            assert(views(out@)[j as int] == out@[j as int]@);
            if crate::chars::seq_eq(&out[j], &xs[i]) {
                seen = true;
            }
            j += 1;
        }
        assert(seen == views(out@).contains(all[i as int])) by {
            if views(out@).contains(all[i as int]) {
                let t = choose|t: int| 0 <= t < views(out@).len() && views(out@)[t] == all[i as int];
            }
        }
        if !seen {
            let ghost before = views(out@);
            out.push(crate::chars::subvec(&xs[i], 0, xs[i].len()));
            assert(xs@[i as int]@.subrange(0, xs@[i as int]@.len() as int) =~= xs@[i as int]@);
            assert(views(out@) =~= before.push(all[i as int]));
        }
        i += 1;
    }
    assert(all.take(xs@.len() as int) =~= all);
    out
}

/// The recent-list file body after opening `path` (given the old body).
pub fn push_recent_body(text: &str, path: &str) -> (r: String)
    ensures
        r@ == recent_body(text@, path@),
{
    let kept = dedup_paths_exec(&non_empty_exec(trim_each(&lines_exec(&chars_of(text)))));
    let p = chars_of(path);
    let kp = path_key_exec(&p);
    let mut list: Vec<Vec<char>> = Vec::new();
    list.push(crate::chars::subvec(&p, 0, p.len()));
    assert(p@.subrange(0, p@.len() as int) =~= p@);
    let mut i: usize = 0;
    assert(views(kept@).take(0) =~= Seq::<Seq<char>>::empty());
    assert(views(list@) =~= seq![path@] + without(views(kept@).take(0), path@));
    while i < kept.len()
        invariant
            i <= kept@.len(),
            p@ == path@,
            views(kp@) == path_key(path@),
            views(list@) == seq![path@] + without(views(kept@).take(i as int), path@),
        decreases kept.len() - i,
    {
        let ghost before = views(list@);
        assert(views(kept@).take(i + 1).drop_last() =~= views(kept@).take(i as int));
        assert(views(kept@).take(i + 1).last() == views(kept@)[i as int]);
        let ki = path_key_exec(&kept[i]);
        assert(views(kept@)[i as int] == kept@[i as int]@);
        if !keys_eq(&ki, &kp) {
            list.push(crate::chars::subvec(&kept[i], 0, kept[i].len()));
            assert(kept@[i as int]@.subrange(0, kept@[i as int]@.len() as int) =~= kept@[i as int]@);
            assert(views(list@) =~= before.push(views(kept@)[i as int]));
        }
        i += 1;
        assert(views(list@) =~= seq![path@] + without(views(kept@).take(i as int), path@));
    }
    assert(views(kept@).take(kept@.len() as int) =~= views(kept@));
    if list.len() > RECENT_MAX {
        list.truncate(RECENT_MAX);
        assert(views(list@) =~= (seq![path@] + without(views(kept@), path@)).take(RECENT_MAX as int));
    }
    let mut nl: Vec<char> = Vec::new();
    nl.push('\n');
    assert(nl@ == "\n"@) by {
        reveal_strlit("\n");
    }
    string_of(&concat(&join_exec(&list, &nl), &nl))
}

/// The recent bundles to offer: the trimmed non-empty lines that are
/// existing directories (`dirs`), first occurrences only, at most
/// `RECENT_MAX`.
pub open spec fn recent_offer(text: Seq<char>, dirs: Set<Seq<char>>) -> Seq<Seq<char>> {
    let ok = dedup_first(non_empty(trim_all(lines(text))).filter(|l: Seq<char>| dirs.contains(l)));
    if ok.len() > RECENT_MAX { ok.take(RECENT_MAX as int) } else { ok }
}

/// The recent bundles to offer (see `recent_offer`).
pub fn recent_paths(text: &str, dirs: &Vec<String>) -> (r: Vec<String>)
    ensures
        strs(r@) == recent_offer(text@, str_set(dirs@)),
{
    let cands = non_empty_exec(trim_each(&lines_exec(&chars_of(text))));
    let ghost all = views(cands@);
    let ghost keep = |l: Seq<char>| str_set(dirs@).contains(l);
    let mut ok: Vec<Vec<char>> = Vec::new();
    let mut i: usize = 0;
    while i < cands.len()
        invariant
            i <= cands@.len(),
            all == views(cands@),
            keep == (|l: Seq<char>| str_set(dirs@).contains(l)),
            views(ok@) == all.take(i as int).filter(keep),
        decreases cands.len() - i,
    {
        assert(all.take(i + 1).drop_last() =~= all.take(i as int));
        let s = string_of(&cands[i]);
        if list_contains(dirs, &s) {
            let ghost before = views(ok@);
            ok.push(crate::chars::subvec(&cands[i], 0, cands[i].len()));
            assert(cands@[i as int]@.subrange(0, cands@[i as int]@.len() as int) =~= cands@[i as int]@);
            assert(views(ok@) =~= before.push(all[i as int]));
        }
        assert(all.take(i + 1).filter(keep) == if keep(all[i as int]) { all.take(i as int).filter(keep).push(all[i as int]) } else { all.take(i as int).filter(keep) }) by {
            reveal(Seq::filter);
            assert(all.take(i + 1).drop_last() =~= all.take(i as int));
            assert(all.take(i + 1).last() == all[i as int]);
        }
        i += 1;
    }
    assert(all.take(cands@.len() as int) =~= all);
    let mut d = dedup_exec(&ok);
    if d.len() > RECENT_MAX {
        d.truncate(RECENT_MAX);
    }
    let r = to_strings(&d);
    r
}

// ───────────────────────── batch items ─────────────────────────

/// The new name of item `id` in a batch rename: the first pair renaming it.
pub open spec fn rename_target(renames: Seq<(Seq<char>, Seq<char>)>, id: Seq<char>) -> Result<Seq<char>, Seq<char>> {
    if exists|i: int| 0 <= i < renames.len() && renames[i].0 == id {
        let i = choose|i: int| 0 <= i < renames.len() && renames[i].0 == id && forall|j: int| 0 <= j < i ==> renames[j].0 != id;
        Ok(renames[i].1)
    } else {
        Err("重命名映射缺失："@ + id)
    }
}

/// Looks up the new name of one renamed item.
pub fn rename_lookup(renames: &Vec<(String, String)>, id: &String) -> (r: Result<String, String>)
    ensures
        match r {
            Ok(n) => rename_target(Seq::new(renames@.len(), |i: int| (renames@[i].0@, renames@[i].1@)), id@) == Ok::<Seq<char>, Seq<char>>(n@),
            Err(m) => rename_target(Seq::new(renames@.len(), |i: int| (renames@[i].0@, renames@[i].1@)), id@) == Err::<Seq<char>, Seq<char>>(m@),
        },
{
    let ghost rs = Seq::new(renames@.len(), |i: int| (renames@[i].0@, renames@[i].1@));
    let mut i: usize = 0;
    while i < renames.len()
        invariant
            i <= renames@.len(),
            rs == Seq::new(renames@.len(), |i: int| (renames@[i].0@, renames@[i].1@)),
            forall|j: int| 0 <= j < i ==> rs[j].0 != id@,
        decreases renames.len() - i,
    {
        if renames[i].0 == *id {
            let ghost w = choose|w: int| 0 <= w < rs.len() && rs[w].0 == id@ && forall|j: int| 0 <= j < w ==> rs[j].0 != id@;
            assert(rs[i as int].0 == id@);
            assert(w == i) by {
                if w > i {
                    assert(rs[i as int].0 != id@);
                }
            }
            return Ok(renames[i].1.clone());
        }
        i += 1;
    }
    Err(string_of(&concat(&chars_of("重命名映射缺失："), &chars_of(id.as_str()))))
}

/// Outcome of one item pasted into content folder `rel`: the status note
/// and the item's branch-relative path.
pub open spec fn folder_paste_outcome_of(is_cut: bool, name: Seq<char>, rel: Seq<char>) -> (Seq<char>, Seq<char>) {
    let path = rel + "/"@ + name;
    ("已"@ + (if is_cut { "移动"@ } else { "粘贴"@ }) + " "@ + name + "（→ "@ + path + "）"@, path)
}

/// Reports one item pasted into a content folder by a batch.
pub fn folder_paste_outcome(is_cut: bool, name: &str, rel: &str) -> (r: (String, String))
    ensures
        (r.0@, r.1@) == folder_paste_outcome_of(is_cut, name@, rel@),
{
    let path = concat(&concat(&chars_of(rel), &chars_of("/")), &chars_of(name));
    let verb = if is_cut { chars_of("移动") } else { chars_of("粘贴") };
    let msg = concat(&concat(&concat(&concat(&concat(&chars_of("已"), &verb), &chars_of(" ")), &chars_of(name)), &concat(&chars_of("（→ "), &path)), &chars_of("）"));
    (string_of(&msg), string_of(&path))
}

/// The status line while a batch runs: item `n` of `total`, with its title.
pub open spec fn progress_text_of(label: Seq<char>, n: nat, total: nat, title: Seq<char>) -> Seq<char> {
    label + " "@ + dec(n) + "/"@ + dec(total) + " · "@ + title
}

/// Progress text of item `index` (0-based) of a batch of `total`.
pub fn progress_text(label: &str, index: usize, total: usize, title: &str) -> (r: String)
    requires
        index < usize::MAX,
    ensures
        r@ == progress_text_of(label@, (index + 1) as nat, total as nat, title@),
{
    let n = dec_exec((index + 1) as u128);
    let t = dec_exec(total as u128);
    let out = concat(&concat(&concat(&concat(&concat(&concat(&chars_of(label), &chars_of(" ")), &n), &chars_of("/")), &t), &chars_of(" · ")), &chars_of(title));
    string_of(&out)
}

/// Number of failed items among the first `n` outcomes.
pub open spec fn failures(rs: Seq<bool>, n: int) -> nat
    decreases n,
{
    if n <= 0 || n > rs.len() {
        0
    } else {
        failures(rs, n - 1) + if rs[n - 1] { 0nat } else { 1nat }
    }
}

/// The end of a batch: how many items failed (`ok[i]` = item `i`
/// succeeded), and whether the summary dialog opens (only with a failure).
pub fn batch_summary(ok: &Vec<bool>) -> (r: (usize, bool))
    ensures
        r.0 == failures(ok@, ok@.len() as int),
        r.1 == (r.0 > 0),
{
    let mut failed: usize = 0;
    let mut i: usize = 0;
    while i < ok.len()
        invariant
            i <= ok@.len(),
            failed == failures(ok@, i as int),
            failed <= i,
        decreases ok.len() - i,
    {
        if !ok[i] {
            failed += 1;
        }
        i += 1;
    }
    (failed, failed > 0)
}

/// One row of a batch's result list.
pub struct BatchOutcome {
    /// The item's id (empty for the closing write-back row).
    pub id: String,
    pub title: String,
    pub ok: bool,
    pub msg: String,
    /// Where the item's registration landed (empty on failure).
    pub new_path: String,
}

impl BatchOutcome {
    /// The status glyph shown in the summary: `✓` or `✗`.
    pub fn status(&self) -> (r: String)
        ensures
            r@ == if self.ok { "✓"@ } else { "✗"@ },
    {
        if self.ok { "✓".to_owned() } else { "✗".to_owned() }
    }
}

/// Row `o` reports item `(id, title)` whose run gave `r`: the message and
/// landed path on success, the error on failure.
pub open spec fn outcome_row(o: BatchOutcome, id: Seq<char>, title: Seq<char>, r: Result<(String, String), String>) -> bool {
    &&& o.id@ == id
    &&& o.title@ == title
    &&& match r {
        Ok((m, p)) => o.ok && o.msg@ == m@ && o.new_path@ == p@,
        Err(m) => !o.ok && o.msg@ == m@ && o.new_path@ == Seq::<char>::empty(),
    }
}

/// The result rows of a batch: one per item, in order (`results[i]` is
/// what item `i` gave), then, when closing the session (the last trash call
/// and the write-back) failed, one failure row titled `删除 / 登记写回`.
pub fn batch_outcomes(
    items: &Vec<(String, String)>,
    results: &Vec<Result<(String, String), String>>,
    finish: &Result<(), String>,
) -> (rows: Vec<BatchOutcome>)
    requires
        items@.len() == results@.len(),
    ensures
        rows@.len() == items@.len() + if finish is Err { 1int } else { 0int },
        forall|i: int| 0 <= i < items@.len() ==> outcome_row(#[trigger] rows@[i], items@[i].0@, items@[i].1@, results@[i]),
        finish matches Err(m) ==> ({
            let last = rows@[items@.len() as int];
            &&& last.id@ == Seq::<char>::empty()
            &&& last.title@ == "删除 / 登记写回"@
            &&& !last.ok
            &&& last.msg@ == m@
            &&& last.new_path@ == Seq::<char>::empty()
        }),
{
    let mut rows: Vec<BatchOutcome> = Vec::new();
    let mut i: usize = 0;
    while i < items.len()
        invariant
            items@.len() == results@.len(),
            i <= items@.len(),
            rows@.len() == i,
            forall|j: int| 0 <= j < i ==> outcome_row(#[trigger] rows@[j], items@[j].0@, items@[j].1@, results@[j]),
        decreases items.len() - i,
    {
        let row = match &results[i] {
            Ok((m, p)) => BatchOutcome { id: items[i].0.clone(), title: items[i].1.clone(), ok: true, msg: m.clone(), new_path: p.clone() },
            Err(m) => BatchOutcome { id: items[i].0.clone(), title: items[i].1.clone(), ok: false, msg: m.clone(), new_path: String::new() },
        };
        rows.push(row);
        i += 1;
    }
    match finish {
        Err(m) => {
            rows.push(BatchOutcome { id: String::new(), title: "删除 / 登记写回".to_owned(), ok: false, msg: m.clone(), new_path: String::new() });
        },
        Ok(()) => {},
    }
    rows
}

/// The outcome of showing paths in the file manager one window per group
/// (`shown[g]`: group `g` was shown): success when fewer groups failed than
/// there are groups; otherwise `在 Finder 中显示失败`, and the caller
/// falls back to revealing all the paths at once.
pub fn reveal_outcome(shown: &Vec<bool>) -> (r: Result<(), String>)
    ensures
        r is Ok <==> failures(shown@, shown@.len() as int) < shown@.len(),
        r matches Err(m) ==> m@ == "在 Finder 中显示失败"@,
{
    let (failed, _) = batch_summary(shown);
    if failed < shown.len() {
        Ok(())
    } else {
        Err("在 Finder 中显示失败".to_owned())
    }
}

} // verus!
