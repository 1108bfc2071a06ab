//! What the plan does to each old path: the operations that take the file
//! of an old entry are those that the entry asks for by itself, whatever the
//! other entries ask for.

use vstd::prelude::*;
use crate::backup::{backup_candidate, backup_path, first_free, lemma_candidates_bounded};
use crate::entry::Item;
use crate::fsutils::fsop::Op;
use crate::listing::{has_id, has_path, lemma_pos, old_listing_valid, pos};
use crate::planner::sim::lemma_paths_finite;
use crate::planner::plan::{
    first, is_dest, own_ops, parked_for, placed_at, planned, serve_from, transfers, visit, walked,
    Walk,
};

verus! {

/// Whether `op` takes the file at `path`: copies it, moves it away, or
/// removes it.
pub open spec fn takes(op: Op, path: Seq<char>) -> bool {
    match op {
        Op::Create { path: made } => false,
        Op::Move { src, dst } => src == path,
        Op::Copy { src, dst } => src == path,
        Op::Remove { path: gone } => gone == path,
    }
}

/// The operations of `ops` that take the file at `path`, in order.
pub open spec fn taking(ops: Seq<Op>, path: Seq<char>) -> Seq<Op> {
    ops.filter(|op: Op| takes(op, path))
}

/// Whether two operations are of one kind and take the same file. Where
/// they are transfers, they may differ in where the file goes.
pub open spec fn alike(x: Op, y: Op) -> bool {
    match (x, y) {
        (Op::Move { src: s1, dst: d1 }, Op::Move { src: s2, dst: d2 }) => s1 == s2,
        (Op::Copy { src: s1, dst: d1 }, Op::Copy { src: s2, dst: d2 }) => s1 == s2,
        (Op::Remove { path: p1 }, Op::Remove { path: p2 }) => p1 == p2,
        _ => false,
    }
}

/// Whether `after` is `before`, followed by operations that are like those
/// of `added`, one for one.
pub open spec fn extended(before: Seq<Op>, after: Seq<Op>, added: Seq<Op>) -> bool {
    &&& after.len() == before.len() + added.len()
    &&& forall|t: int| 0 <= t < before.len() ==> #[trigger] after[t] == before[t]
    &&& forall|t: int| 0 <= t < added.len() ==> alike(after[before.len() + t], #[trigger] added[t])
}

/// One more operation is taken along exactly if it takes the file.
pub proof fn lemma_taking_push(ops: Seq<Op>, op: Op, path: Seq<char>)
    ensures
        taking(ops.push(op), path) == if takes(op, path) {
            taking(ops, path).push(op)
        } else {
            taking(ops, path)
        },
{
    reveal(Seq::filter);
    assert(ops.push(op).drop_last() =~= ops);
}

/// What holds of a walk between its steps, as far as the taking of files
/// goes: no identifier is both processed and locked, a backup finds a free
/// name that no old entry has, and a move that waits starts at such a name.
pub open spec fn tidy(old: Seq<Item>, w: Walk) -> bool {
    &&& w.taken.finite()
    &&& w.processed.disjoint(w.locked)
    &&& forall|c: int| 0 <= c < old.len() ==> w.taken.contains((#[trigger] old[c]).path)
    &&& forall|v: u64| #[trigger]
        w.dirty.contains_key(v) ==> (w.dirty[v] matches Op::Move { src, dst } && !has_path(
            old,
            src,
        ))
}

/// How the operations that take the file of entry `c` have grown from the
/// walk `w` to the walk `r`: not at all where the identifier of the entry was
/// processed or locked before, or is still untouched; by what the entry asks
/// for by itself where its identifier was processed in between.
pub open spec fn grown(old: Seq<Item>, new: Seq<Item>, w: Walk, r: Walk, c: int) -> bool {
    let id = old[c].id->0;
    let path = old[c].path;
    if !w.processed.contains(id) && !w.locked.contains(id) && r.processed.contains(id) {
        extended(taking(w.ops, path), taking(r.ops, path), own_ops(old, new, c))
    } else {
        taking(r.ops, path) == taking(w.ops, path)
    }
}

/// What a visit or the serving of destinations keeps of a walk.
pub open spec fn kept_by(old: Seq<Item>, w: Walk, r: Walk) -> bool {
    &&& tidy(old, r)
    &&& r.locked =~= w.locked
    &&& w.processed.subset_of(r.processed)
    &&& r.processed.disjoint(w.locked)
}

/// A backup path is a name that was not taken.
proof fn lemma_backup_fresh(base: Seq<char>, taken: Set<Seq<char>>)
    requires
        taken.finite(),
    ensures
        !taken.contains(backup_path(base, taken)),
{
    if forall|i: nat| !first_free(base, taken, i) {
        lemma_all_taken(base, taken, taken.len() + 1);
        lemma_candidates_bounded(base, taken, taken.len() + 1);
    }
}

/// Where no candidate is the first free one, every candidate is taken.
proof fn lemma_all_taken(base: Seq<char>, taken: Set<Seq<char>>, n: nat)
    requires
        forall|i: nat| !first_free(base, taken, i),
    ensures
        forall|j: nat| j < n ==> taken.contains(#[trigger] backup_candidate(base, j)),
    decreases n,
{
    if n > 0 {
        lemma_all_taken(base, taken, (n - 1) as nat);
        assert(!first_free(base, taken, (n - 1) as nat));
    }
}

/// A visit adds, for every old entry, nothing to the operations that take
/// its file, or all that the entry asks for by itself.
proof fn lemma_visit_takes(old: Seq<Item>, new: Seq<Item>, w: Walk, a: int, depth: nat)
    requires
        old_listing_valid(old),
        tidy(old, w),
        0 <= a < old.len(),
        !w.locked.contains(old[a].id->0),
    ensures
        kept_by(old, w, visit(old, new, w, a, depth)),
        visit(old, new, w, a, depth).processed.contains(old[a].id->0),
        forall|c: int|
            0 <= c < old.len() ==> #[trigger] grown(old, new, w, visit(old, new, w, a, depth), c),
    decreases depth, new.len() + 1,
{
    let id = old[a].id->0;
    let r = visit(old, new, w, a, depth);
    if !w.processed.contains(id) {
        let entered = Walk { locked: w.locked.insert(id), ..w };
        lemma_serve_takes(old, new, entered, a, 0, depth);
        let served = serve_from(old, new, entered, a, 0, depth);
        let removal = Op::Remove { path: old[a].path };
        let done = if has_id(new, id) {
            served
        } else {
            Walk { ops: served.ops.push(removal), ..served }
        };
        assert forall|c: int| 0 <= c < old.len() implies grown(old, new, w, r, c) by {
            let path = old[c].path;
            lemma_ids_differ(old, a, c);
            lemma_taking_push(served.ops, removal, path);
            if done.dirty.contains_key(id) {
                lemma_taking_push(done.ops, done.dirty[id], path);
            }
            if c != a {
                assert(grown(old, new, entered, served, c));
            }
        }
    }
}

/// Different entries of the old listing have different identifiers and
/// paths.
proof fn lemma_ids_differ(old: Seq<Item>, a: int, c: int)
    requires
        old_listing_valid(old),
        0 <= a < old.len(),
        0 <= c < old.len(),
    ensures
        a != c ==> old[a].id->0 != old[c].id->0 && old[a].path != old[c].path,
{
}

/// Serving the destinations of an entry from entry `k` of the new listing
/// on adds the transfers of the entry to the operations that take its file,
/// and for every other old entry nothing, or all that it asks for by itself.
proof fn lemma_serve_takes(
    old: Seq<Item>,
    new: Seq<Item>,
    w: Walk,
    a: int,
    k: int,
    depth: nat,
)
    requires
        old_listing_valid(old),
        tidy(old, w),
        0 <= a < old.len(),
        w.locked.contains(old[a].id->0),
        !w.processed.contains(old[a].id->0),
        0 <= k <= new.len(),
    ensures
        kept_by(old, w, serve_from(old, new, w, a, k, depth)),
        !serve_from(old, new, w, a, k, depth).processed.contains(old[a].id->0),
        extended(
            taking(w.ops, old[a].path),
            taking(serve_from(old, new, w, a, k, depth).ops, old[a].path),
            transfers(old, new, a, k),
        ),
        forall|c: int|
            0 <= c < old.len() && c != a ==> #[trigger] grown(
                old,
                new,
                w,
                serve_from(old, new, w, a, k, depth),
                c,
            ),
    decreases depth, new.len() - k,
{
    lemma_pos(old);
    let r = serve_from(old, new, w, a, k, depth);
    let path = old[a].path;
    if k < new.len() && !is_dest(old, new, a, k) {
        lemma_serve_takes(old, new, w, a, k + 1, depth);
    } else if k < new.len() {
        let parking = pos(old).contains_key(new[k].path) && w.locked.contains(
            old[pos(old)[new[k].path]].id->0,
        );
        let cleared = if pos(old).contains_key(new[k].path) && !parking && depth > 0 {
            visit(old, new, w, pos(old)[new[k].path], (depth - 1) as nat)
        } else {
            w
        };
        if pos(old).contains_key(new[k].path) && !parking && depth > 0 {
            let c0 = pos(old)[new[k].path];
            lemma_ids_differ(old, a, c0);
            lemma_visit_takes(old, new, w, c0, (depth - 1) as nat);
            assert(grown(old, new, w, cleared, a));
        }
        let next = if parking {
            parked_for(old, new, w, a, k, old[pos(old)[new[k].path]].id->0)
        } else {
            placed_at(old, new, cleared, a, k)
        };
        let op = next.ops.last();
        if parking {
            lemma_backup_fresh(path, w.taken);
        }
        lemma_serve_takes(old, new, next, a, k + 1, depth);
        lemma_taking_push(cleared.ops, op, path);
        assert forall|c: int| 0 <= c < old.len() && c != a implies grown(old, new, w, r, c) by {
            lemma_ids_differ(old, a, c);
            lemma_taking_push(cleared.ops, op, old[c].path);
            assert(grown(old, new, next, r, c));
            assert(grown(old, new, w, cleared, c));
        }
    }
}

/// The walk is tidy before its first visit.
proof fn lemma_first_tidy(old: Seq<Item>, new: Seq<Item>)
    ensures
        tidy(old, first(old, new)),
{
    lemma_paths_finite(old);
    lemma_paths_finite(new);
    let paths = Set::new(|p: Seq<char>| has_path(old, p)).union(
        Set::new(|p: Seq<char>| has_path(new, p)),
    );
    vstd::set_lib::lemma_set_subset_finite(paths, first(old, new).taken);
}

/// After the visits of the first `n` old entries, every old entry whose
/// identifier is processed has had its file taken as it asks by itself, and
/// the file of every other is untouched.
proof fn lemma_walked_takes(old: Seq<Item>, new: Seq<Item>, n: nat)
    requires
        old_listing_valid(old),
        n <= old.len(),
    ensures
        tidy(old, walked(old, new, n)),
        walked(old, new, n).locked =~= Set::<u64>::empty(),
        forall|c: int|
            0 <= c < n ==> walked(old, new, n).processed.contains((#[trigger] old[c]).id->0),
        forall|c: int|
            0 <= c < old.len() ==> #[trigger] grown(
                old,
                new,
                first(old, new),
                walked(old, new, n),
                c,
            ),
    decreases n,
{
    let start = first(old, new);
    lemma_first_tidy(old, new);
    if n > 0 {
        let w = walked(old, new, (n - 1) as nat);
        let r = walked(old, new, n);
        lemma_walked_takes(old, new, (n - 1) as nat);
        lemma_visit_takes(old, new, w, n - 1, old.len());
        assert forall|c: int| 0 <= c < old.len() implies #[trigger] grown(
            old,
            new,
            start,
            r,
            c,
        ) by {
            assert(grown(old, new, start, w, c));
            assert(grown(old, new, w, r, c));
        }
    }
}

/// The operations of the plan that take the file of an old entry are, one
/// for one and in order, like those that the entry asks for by itself: a copy
/// for each destination, but for the last a move where the old path is not
/// kept; or a removal, where the new listing lacks the identifier. They may
/// differ only in where the file goes: to a backup path in place of the
/// destination. What the other entries ask for makes no difference.
pub proof fn lemma_planned_takes(old: Seq<Item>, new: Seq<Item>, a: int)
    requires
        old_listing_valid(old),
        0 <= a < old.len(),
    ensures
        extended(Seq::empty(), taking(planned(old, new), old[a].path), own_ops(old, new, a)),
{
    lemma_walked_takes(old, new, old.len());
    let r = walked(old, new, old.len());
    assert(grown(old, new, first(old, new), r, a));
}

} // verus!
