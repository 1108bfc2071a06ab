//! The plan of the walk, as a mathematical object.
//!
//! The old entries are visited in the order of their listing. A visit
//! serves the destinations of the entry's identifier in the order of the new
//! listing: every entry of the new listing with that identifier and another
//! path than the old one receives the file, by a copy, or by a move where it
//! is the last such entry and the old path is not kept. A destination that is
//! the old path of another identifier is cleared first, by a visit of that
//! identifier, unless that identifier is being visited already: then the
//! content goes to a backup path, and moves on when that visit ends. An
//! identifier without any entry in the new listing loses its file.

use vstd::prelude::*;
use crate::backup::backup_path;
use crate::entry::Item;
use crate::fsutils::fsop::Op;
use crate::listing::{
    claims, has_id, has_path, holds, lemma_pos, old_listing_valid, paths_unique, pos, state_of,
};
use crate::planner::sim::transfer;

verus! {

/// What a walk has done so far.
#[verifier::ext_equal]
pub struct Walk {
    /// The operations emitted.
    pub ops: Seq<Op>,
    /// The paths that no backup may take.
    pub taken: Set<Seq<char>>,
    /// The identifiers whose visit has ended.
    pub processed: Set<u64>,
    /// The identifiers whose visit is under way.
    pub locked: Set<u64>,
    /// For an identifier whose visit is under way, the move that waits for
    /// its end.
    pub dirty: Map<u64, Op>,
}

/// The walk before the first visit: nothing is emitted, and the paths of
/// the old listing are taken, as are those to which the new listing gives
/// content.
pub open spec fn first(old: Seq<Item>, new: Seq<Item>) -> Walk {
    Walk {
        ops: Seq::empty(),
        taken: Set::new(|p: Seq<char>| has_path(old, p) || claims(new, p)),
        processed: Set::empty(),
        locked: Set::empty(),
        dirty: Map::empty(),
    }
}

/// The walk after `op` was emitted.
pub open spec fn emit(w: Walk, op: Op) -> Walk {
    Walk { ops: w.ops.push(op), ..w }
}

/// Whether no entry after entry `k` of `new` has the identifier of entry
/// `k`.
pub open spec fn is_last(new: Seq<Item>, k: int) -> bool {
    forall|j: int| k < j < new.len() ==> (#[trigger] new[j]).id != new[k].id
}

/// Whether entry `k` of `new` is a destination of entry `a` of `old`: it
/// has that identifier, and another path.
pub open spec fn is_dest(old: Seq<Item>, new: Seq<Item>, a: int, k: int) -> bool {
    new[k].id == old[a].id && new[k].path != old[a].path
}

/// The walk after the content of entry `a` of `old` was parked for entry
/// `k` of `new`, whose path the identifier `victim` occupies.
pub open spec fn parked_for(
    old: Seq<Item>,
    new: Seq<Item>,
    w: Walk,
    a: int,
    k: int,
    victim: u64,
) -> Walk {
    let moving = !holds(state_of(new), old[a]) && is_last(new, k);
    let backup = backup_path(old[a].path, w.taken);
    Walk {
        ops: w.ops.push(transfer(moving, old[a].path, backup)),
        taken: w.taken.insert(backup),
        dirty: w.dirty.insert(victim, Op::Move { src: backup, dst: new[k].path }),
        ..w
    }
}

/// The walk after entry `k` of `new` received the file of entry `a` of
/// `old`.
pub open spec fn placed_at(old: Seq<Item>, new: Seq<Item>, w: Walk, a: int, k: int) -> Walk {
    let moving = !holds(state_of(new), old[a]) && is_last(new, k);
    emit(w, transfer(moving, old[a].path, new[k].path))
}

/// The walk after the visit of the identifier `id` has ended: the move that
/// waited for it, if any, is emitted.
pub open spec fn left(w: Walk, id: u64) -> Walk {
    if w.dirty.contains_key(id) {
        Walk {
            ops: w.ops.push(w.dirty[id]),
            locked: w.locked.remove(id),
            processed: w.processed.insert(id),
            dirty: w.dirty.remove(id),
            ..w
        }
    } else {
        Walk { locked: w.locked.remove(id), processed: w.processed.insert(id), ..w }
    }
}

/// The walk after entry `a` of `old` was visited, unless its identifier
/// was processed before. `depth` bounds how many visits may nest; a walk
/// never needs more than there are old entries.
pub open spec fn visit(old: Seq<Item>, new: Seq<Item>, w: Walk, a: int, depth: nat) -> Walk
    decreases depth, new.len() + 1,
{
    let id = old[a].id->0;
    if w.processed.contains(id) {
        w
    } else {
        let entered = Walk { locked: w.locked.insert(id), ..w };
        let served = serve_from(old, new, entered, a, 0, depth);
        let done = if has_id(new, id) {
            served
        } else {
            emit(served, Op::Remove { path: old[a].path })
        };
        left(done, id)
    }
}

/// The walk after the destinations of entry `a` of `old` among the entries
/// of `new` from entry `k` on were served, in order.
pub open spec fn serve_from(
    old: Seq<Item>,
    new: Seq<Item>,
    w: Walk,
    a: int,
    k: int,
    depth: nat,
) -> Walk
    decreases depth, new.len() - k,
{
    if k < 0 || k >= new.len() {
        w
    } else if !is_dest(old, new, a, k) {
        serve_from(old, new, w, a, k + 1, depth)
    } else if pos(old).contains_key(new[k].path) {
        let c = pos(old)[new[k].path];
        let victim = old[c].id->0;
        if w.locked.contains(victim) {
            serve_from(old, new, parked_for(old, new, w, a, k, victim), a, k + 1, depth)
        } else {
            let cleared = if depth > 0 {
                visit(old, new, w, c, (depth - 1) as nat)
            } else {
                w
            };
            serve_from(old, new, placed_at(old, new, cleared, a, k), a, k + 1, depth)
        }
    } else {
        serve_from(old, new, placed_at(old, new, w, a, k), a, k + 1, depth)
    }
}

/// The walk after the first `n` entries of `old` were visited.
pub open spec fn walked(old: Seq<Item>, new: Seq<Item>, n: nat) -> Walk
    decreases n,
{
    if n == 0 {
        first(old, new)
    } else {
        visit(old, new, walked(old, new, (n - 1) as nat), n - 1, old.len())
    }
}

/// The copies, moves and removals that the walk from `old` to `new`
/// emits.
pub open spec fn planned(old: Seq<Item>, new: Seq<Item>) -> Seq<Op> {
    walked(old, new, old.len()).ops
}

/// Entries that are no destination are passed over.
pub proof fn lemma_pass_over(
    old: Seq<Item>,
    new: Seq<Item>,
    w: Walk,
    a: int,
    from: int,
    to: int,
    depth: nat,
)
    requires
        0 <= from <= to <= new.len(),
        forall|j: int| from <= j < to ==> !is_dest(old, new, a, j),
    ensures
        serve_from(old, new, w, a, from, depth) == serve_from(old, new, w, a, to, depth),
    decreases to - from,
{
    if from < to {
        lemma_pass_over(old, new, w, a, from + 1, to, depth);
    }
}

/// Whether no destination is the old path of another identifier: an entry
/// of `new` with an identifier has a path that `old` lacks, or is an entry
/// of `old`.
pub open spec fn independent(old: Seq<Item>, new: Seq<Item>) -> bool {
    forall|k: int|
        0 <= k < new.len() && (#[trigger] new[k]).id is Some ==> !has_path(old, new[k].path)
            || holds(state_of(old), new[k])
}

/// The transfers from entry `a` of `old` to its destinations among the
/// entries of `new` from entry `k` on, in order: copies, and for the last
/// destination a move where the old path is not kept.
pub open spec fn transfers(old: Seq<Item>, new: Seq<Item>, a: int, k: int) -> Seq<Op>
    decreases new.len() - k,
{
    if k < 0 || k >= new.len() {
        Seq::empty()
    } else if !is_dest(old, new, a, k) {
        transfers(old, new, a, k + 1)
    } else {
        seq![
            transfer(
                !holds(state_of(new), old[a]) && is_last(new, k),
                old[a].path,
                new[k].path,
            ),
        ] + transfers(old, new, a, k + 1)
    }
}

/// What entry `a` of `old` asks for by itself: the transfers to its
/// destinations, or its removal where `new` lacks its identifier.
pub open spec fn own_ops(old: Seq<Item>, new: Seq<Item>, a: int) -> Seq<Op> {
    transfers(old, new, a, 0) + if has_id(new, old[a].id->0) {
        Seq::empty()
    } else {
        seq![Op::Remove { path: old[a].path }]
    }
}

/// What the first `n` entries of `old` ask for by themselves, entry by
/// entry.
pub open spec fn plain_plan(old: Seq<Item>, new: Seq<Item>, n: nat) -> Seq<Op>
    decreases n,
{
    if n == 0 {
        Seq::empty()
    } else {
        plain_plan(old, new, (n - 1) as nat) + own_ops(old, new, n - 1)
    }
}

/// Where no destination is the old path of another identifier, serving
/// the destinations of an entry emits its transfers and changes nothing
/// else.
pub proof fn lemma_serve_independent(
    old: Seq<Item>,
    new: Seq<Item>,
    w: Walk,
    a: int,
    k: int,
    depth: nat,
)
    requires
        old_listing_valid(old),
        independent(old, new),
        0 <= a < old.len(),
        0 <= k <= new.len(),
    ensures
        serve_from(old, new, w, a, k, depth) == (Walk {
            ops: w.ops + transfers(old, new, a, k),
            ..w
        }),
    decreases new.len() - k,
{
    lemma_pos(old);
    if k < new.len() {
        if is_dest(old, new, a, k) {
            let next = placed_at(old, new, w, a, k);
            lemma_serve_independent(old, new, next, a, k + 1, depth);
        } else {
            lemma_serve_independent(old, new, w, a, k + 1, depth);
        }
    }
}

/// Where no destination is the old path of another identifier, the walk
/// emits, entry by entry of the old listing, what the entry asks for by
/// itself; nothing is parked, and nothing waits.
pub proof fn lemma_walked_independent(old: Seq<Item>, new: Seq<Item>, n: nat)
    requires
        old_listing_valid(old),
        independent(old, new),
        n <= old.len(),
    ensures
        walked(old, new, n) == (Walk {
            ops: plain_plan(old, new, n),
            processed: Set::new(
                |id: u64| exists|c: int| 0 <= c < n && (#[trigger] old[c]).id == Some(id),
            ),
            ..first(old, new)
        }),
    decreases n,
{
    if n > 0 {
        let a = n - 1;
        lemma_walked_independent(old, new, a as nat);
        let w = walked(old, new, a as nat);
        let entered = Walk { locked: w.locked.insert(old[a].id->0), ..w };
        lemma_serve_independent(old, new, entered, a, 0, old.len());
    }
}

/// Where no destination is the old path of another identifier, the plan is
/// what the old entries ask for by themselves, one after the other: for each
/// entry the transfers to its destinations, in the order of the new listing,
/// or its removal. No backup path occurs, and the plan has one operation for
/// each destination and one for each dropped identifier.
pub proof fn lemma_planned_independent(old: Seq<Item>, new: Seq<Item>)
    requires
        old_listing_valid(old),
        independent(old, new),
    ensures
        planned(old, new) == plain_plan(old, new, old.len()),
{
    lemma_walked_independent(old, new, old.len());
}

/// The place of entry `k` of a listing once entry `j` is taken out.
pub open spec fn shifted(j: int, k: int) -> int {
    if k <= j {
        k
    } else {
        k - 1
    }
}

/// Taking an entry without identifier out of the new listing changes
/// nothing of what the walk looks at.
proof fn lemma_same_view(old: Seq<Item>, new: Seq<Item>, j: int)
    requires
        old_listing_valid(old),
        paths_unique(new),
        0 <= j < new.len(),
        new[j].id is None,
    ensures
        paths_unique(new.remove(j)),
        first(old, new) == first(old, new.remove(j)),
        forall|id: u64| has_id(new, id) == has_id(new.remove(j), id),
        forall|a: int|
            0 <= a < old.len() ==> holds(state_of(new), #[trigger] old[a]) == holds(
                state_of(new.remove(j)),
                old[a],
            ),
        forall|k: int|
            0 <= k < new.len() && k != j ==> #[trigger] new[k] == new.remove(j)[shifted(j, k)],
        forall|k: int|
            0 <= k < new.len() && k != j && (#[trigger] new[k]).id is Some ==> is_last(new, k)
                == is_last(new.remove(j), shifted(j, k)),
{
    let cut = new.remove(j);
    lemma_pos(new);
    lemma_pos(cut);
    assert forall|p: Seq<char>| claims(new, p) == claims(cut, p) by {
        if claims(new, p) {
            let k = choose|k: int|
                0 <= k < new.len() && (#[trigger] new[k]).path == p && new[k].id is Some;
            assert(cut[shifted(j, k)] == new[k]);
        }
    }
    assert forall|k: int|
        0 <= k < new.len() && k != j && (#[trigger] new[k]).id is Some implies is_last(new, k)
        == is_last(cut, shifted(j, k)) by {
        let k1 = shifted(j, k);
        if is_last(cut, k1) {
            assert forall|y: int| k < y < new.len() implies (#[trigger] new[y]).id
                != new[k].id by {
                if y != j {
                    assert(cut[shifted(j, y)].id != cut[k1].id);
                }
            }
        }
    }
}

/// A visit goes the same way once an entry without identifier is taken out
/// of the new listing.
proof fn lemma_visit_without(
    old: Seq<Item>,
    new: Seq<Item>,
    j: int,
    w: Walk,
    a: int,
    depth: nat,
)
    requires
        old_listing_valid(old),
        paths_unique(new),
        0 <= j < new.len(),
        new[j].id is None,
        0 <= a < old.len(),
    ensures
        visit(old, new, w, a, depth) == visit(old, new.remove(j), w, a, depth),
    decreases depth, new.len() + 1,
{
    lemma_same_view(old, new, j);
    if !w.processed.contains(old[a].id->0) {
        let entered = Walk { locked: w.locked.insert(old[a].id->0), ..w };
        lemma_serve_without(old, new, j, entered, a, 0, depth);
    }
}

/// Serving goes the same way once an entry without identifier is taken out
/// of the new listing.
proof fn lemma_serve_without(
    old: Seq<Item>,
    new: Seq<Item>,
    j: int,
    w: Walk,
    a: int,
    k: int,
    depth: nat,
)
    requires
        old_listing_valid(old),
        paths_unique(new),
        0 <= j < new.len(),
        new[j].id is None,
        0 <= a < old.len(),
        0 <= k <= new.len(),
    ensures
        serve_from(old, new, w, a, k, depth) == serve_from(
            old,
            new.remove(j),
            w,
            a,
            shifted(j, k),
            depth,
        ),
    decreases depth, new.len() - k,
{
    lemma_same_view(old, new, j);
    lemma_pos(old);
    if k == j {
        lemma_serve_without(old, new, j, w, a, k + 1, depth);
    } else if k < new.len() {
        if !is_dest(old, new, a, k) {
            lemma_serve_without(old, new, j, w, a, k + 1, depth);
        } else if pos(old).contains_key(new[k].path) {
            let c = pos(old)[new[k].path];
            let victim = old[c].id->0;
            if w.locked.contains(victim) {
                let next = parked_for(old, new, w, a, k, victim);
                lemma_serve_without(old, new, j, next, a, k + 1, depth);
            } else {
                if depth > 0 {
                    lemma_visit_without(old, new, j, w, c, (depth - 1) as nat);
                }
                let cleared = if depth > 0 {
                    visit(old, new, w, c, (depth - 1) as nat)
                } else {
                    w
                };
                let next = placed_at(old, new, cleared, a, k);
                lemma_serve_without(old, new, j, next, a, k + 1, depth);
            }
        } else {
            let next = placed_at(old, new, w, a, k);
            lemma_serve_without(old, new, j, next, a, k + 1, depth);
        }
    }
}

/// The walk goes the same way once an entry without identifier is taken
/// out of the new listing.
proof fn lemma_walked_without(old: Seq<Item>, new: Seq<Item>, j: int, n: nat)
    requires
        old_listing_valid(old),
        paths_unique(new),
        0 <= j < new.len(),
        new[j].id is None,
        n <= old.len(),
    ensures
        walked(old, new, n) == walked(old, new.remove(j), n),
    decreases n,
{
    lemma_same_view(old, new, j);
    if n > 0 {
        lemma_walked_without(old, new, j, (n - 1) as nat);
        lemma_visit_without(old, new, j, walked(old, new, (n - 1) as nat), n - 1, old.len());
    }
}

/// An entry without identifier has no influence on the copies, moves and
/// removals: the plan is the same once the entry is taken out of the new
/// listing.
pub proof fn lemma_new_file_without_influence(old: Seq<Item>, new: Seq<Item>, j: int)
    requires
        old_listing_valid(old),
        paths_unique(new),
        0 <= j < new.len(),
        new[j].id is None,
    ensures
        planned(old, new) == planned(old, new.remove(j)),
{
    lemma_walked_without(old, new, j, old.len());
}

} // verus!
