//! The state that the planner keeps while it walks the identifiers, as a
//! mathematical object, and the invariant that every emitted operation
//! preserves.

use vstd::prelude::*;
use crate::entry::Item;
use crate::fsutils::fsop::{op_apply, op_enabled, Op, Tree};
use crate::listing::{
    claims, has_id, has_path, holds, new_listing_valid, old_listing_valid, pos, state_of,
};

verus! {

/// The planner's state in the middle of a run.
#[verifier::ext_equal]
pub struct Sim {
    /// The tree that the operations emitted so far have produced.
    pub tree: Tree,
    /// The identifiers whose operations are final.
    pub processed: Set<u64>,
    /// The identifiers whose destinations are being served right now.
    pub locked: Set<u64>,
    /// For a locked identifier, the move that will bring a parked copy to
    /// the path that the identifier still occupies.
    pub dirty: Map<u64, Op>,
    /// Every path that is or will be in use: no backup may take one.
    pub taken: Set<Seq<char>>,
    /// The entries of the new listing that have been served: their content
    /// is at its path, or parked at a backup path.
    pub handled: Set<int>,
    /// The backup paths in use, each with the identifier it waits for.
    pub backups: Map<Seq<char>, u64>,
}

/// Processed and locked identifiers are identifiers of the old listing, no
/// identifier is both, and the sets that are counted are finite.
pub open spec fn inv_sets(old: Seq<Item>, st: Sim) -> bool {
    &&& st.locked.finite()
    &&& st.taken.finite()
    &&& forall|j: u64| #[trigger] st.processed.contains(j) ==> has_id(old, j)
    &&& forall|j: u64| #[trigger]
        st.locked.contains(j) ==> has_id(old, j) && !st.processed.contains(j)
}

/// An identifier that the walk has not reached still has its file.
pub open spec fn inv_fresh(old: Seq<Item>, st: Sim) -> bool {
    forall|a: int|
        0 <= a < old.len() && !st.processed.contains((#[trigger] old[a]).id->0)
            && !st.locked.contains(old[a].id->0) ==> holds(st.tree, old[a])
}

/// The content for `item` waits at a backup path, because the path of
/// `item` is still occupied by a locked identifier.
pub open spec fn parked(old: Seq<Item>, st: Sim, item: Item) -> bool {
    pos(old).contains_key(item.path) && st.dirty.contains_key(old[pos(old)[item.path]].id->0)
}

/// A served entry has an identifier that the walk has reached and a path
/// other than the old one of that identifier; its content is at its path or
/// parked.
pub open spec fn inv_handled(old: Seq<Item>, new: Seq<Item>, st: Sim) -> bool {
    forall|k: int| #[trigger]
        st.handled.contains(k) ==> {
            &&& 0 <= k < new.len()
            &&& new[k].id is Some
            &&& (st.processed.contains(new[k].id->0) || st.locked.contains(new[k].id->0))
            &&& !holds(state_of(old), new[k])
            &&& (holds(st.tree, new[k]) || parked(old, st, new[k]))
        }
}

/// Every destination of a processed identifier is served, unless it is the
/// old path itself; and a processed identifier has left its old path, unless
/// the new listing keeps it there.
pub open spec fn inv_processed(old: Seq<Item>, new: Seq<Item>, st: Sim) -> bool {
    &&& forall|k: int|
        0 <= k < new.len() && (#[trigger] new[k]).id is Some && st.processed.contains(
            new[k].id->0,
        ) ==> holds(state_of(old), new[k]) || st.handled.contains(k)
    &&& forall|a: int|
        0 <= a < old.len() && st.processed.contains((#[trigger] old[a]).id->0) && holds(
            st.tree,
            old[a],
        ) ==> holds(state_of(new), old[a])
}

/// A pending move belongs to a locked identifier, leads to the path that the
/// identifier occupies, and starts at a live backup path that holds the
/// content which the new listing wants there. Backup paths and pending
/// moves correspond one to one, and a backup path is no path of the old
/// listing and none to which the new listing gives content.
pub open spec fn inv_dirty(old: Seq<Item>, new: Seq<Item>, st: Sim) -> bool {
    &&& forall|v: u64| #[trigger]
        st.dirty.contains_key(v) ==> (st.dirty[v] matches Op::Move { src, dst } && {
            &&& st.locked.contains(v)
            &&& pos(old).contains_key(dst)
            &&& old[pos(old)[dst]].id == Some(v)
            &&& pos(new).contains_key(dst)
            &&& st.handled.contains(pos(new)[dst])
            &&& st.tree.contains_key(src)
            &&& st.tree[src] == new[pos(new)[dst]].id
            &&& st.backups.contains_key(src)
            &&& st.backups[src] == v
        })
    &&& forall|b: Seq<char>| #[trigger]
        st.backups.contains_key(b) ==> {
            &&& st.dirty.contains_key(st.backups[b])
            &&& (st.dirty[st.backups[b]] matches Op::Move { src, dst } && src == b)
            &&& !pos(old).contains_key(b)
            &&& !claims(new, b)
            &&& st.taken.contains(b)
        }
}

/// Every live path is the untouched path of an old entry, the path of a
/// served new entry, or a backup path.
pub open spec fn inv_domain(old: Seq<Item>, new: Seq<Item>, st: Sim) -> bool {
    forall|p: Seq<char>| #[trigger]
        st.tree.contains_key(p) ==> {
            ||| (pos(old).contains_key(p) && st.tree[p] == old[pos(old)[p]].id)
            ||| (pos(new).contains_key(p) && st.handled.contains(pos(new)[p]) && st.tree[p]
                == new[pos(new)[p]].id)
            ||| st.backups.contains_key(p)
        }
}

/// An old entry that the new listing keeps as it is never loses its file.
pub open spec fn inv_kept(old: Seq<Item>, new: Seq<Item>, st: Sim) -> bool {
    forall|a: int|
        0 <= a < old.len() && holds(state_of(new), #[trigger] old[a]) ==> holds(st.tree, old[a])
}

/// The paths of the old listing are taken, and those to which the new
/// listing gives content.
pub open spec fn inv_names(old: Seq<Item>, new: Seq<Item>, st: Sim) -> bool {
    &&& forall|a: int| 0 <= a < old.len() ==> st.taken.contains((#[trigger] old[a]).path)
    &&& forall|k: int|
        0 <= k < new.len() && (#[trigger] new[k]).id is Some ==> st.taken.contains(new[k].path)
}

/// What holds of the planner's state between any two of its steps.
pub open spec fn inv(old: Seq<Item>, new: Seq<Item>, st: Sim) -> bool {
    &&& old_listing_valid(old)
    &&& new_listing_valid(new, old)
    &&& inv_sets(old, st)
    &&& inv_fresh(old, st)
    &&& inv_handled(old, new, st)
    &&& inv_processed(old, new, st)
    &&& inv_dirty(old, new, st)
    &&& inv_domain(old, new, st)
    &&& inv_kept(old, new, st)
    &&& inv_names(old, new, st)
}

/// Every locked identifier still has its file.
pub open spec fn anc_live(old: Seq<Item>, st: Sim) -> bool {
    forall|a: int|
        0 <= a < old.len() && st.locked.contains((#[trigger] old[a]).id->0) ==> holds(
            st.tree,
            old[a],
        )
}

/// The operation that serves a destination from `src`.
pub open spec fn transfer(moving: bool, src: Seq<char>, dst: Seq<char>) -> Op {
    if moving {
        Op::Move { src, dst }
    } else {
        Op::Copy { src, dst }
    }
}

/// The state at the start of a run.
pub open spec fn start(old: Seq<Item>, new: Seq<Item>) -> Sim {
    Sim {
        tree: state_of(old),
        processed: Set::empty(),
        locked: Set::empty(),
        dirty: Map::empty(),
        taken: Set::new(|p: Seq<char>| has_path(old, p) || claims(new, p)),
        handled: Set::empty(),
        backups: Map::empty(),
    }
}

/// The state after the walk has entered the identifier `id`.
pub open spec fn lock(st: Sim, id: u64) -> Sim {
    Sim { locked: st.locked.insert(id), ..st }
}

/// The state after entry `k` of the new listing was served from entry `a`
/// of the old one.
pub open spec fn place(
    old: Seq<Item>,
    new: Seq<Item>,
    st: Sim,
    a: int,
    k: int,
    moving: bool,
) -> Sim {
    Sim {
        tree: op_apply(st.tree, transfer(moving, old[a].path, new[k].path)),
        handled: st.handled.insert(k),
        ..st
    }
}

/// The state after the content for entry `k` of the new listing was parked
/// at `backup`, to wait for the locked identifier `victim`.
pub open spec fn park(
    old: Seq<Item>,
    new: Seq<Item>,
    st: Sim,
    a: int,
    k: int,
    moving: bool,
    backup: Seq<char>,
    victim: u64,
) -> Sim {
    Sim {
        tree: op_apply(st.tree, transfer(moving, old[a].path, backup)),
        handled: st.handled.insert(k),
        dirty: st.dirty.insert(victim, Op::Move { src: backup, dst: new[k].path }),
        backups: st.backups.insert(backup, victim),
        taken: st.taken.insert(backup),
        ..st
    }
}

/// The state after the file of entry `a` of the old listing was removed.
pub open spec fn drop_source(old: Seq<Item>, st: Sim, a: int) -> Sim {
    Sim { tree: op_apply(st.tree, Op::Remove { path: old[a].path }), ..st }
}

/// The state after the walk has left the identifier `id`.
pub open spec fn finish(st: Sim, id: u64) -> Sim {
    if st.dirty.contains_key(id) {
        Sim {
            tree: op_apply(st.tree, st.dirty[id]),
            locked: st.locked.remove(id),
            processed: st.processed.insert(id),
            dirty: st.dirty.remove(id),
            backups: st.backups.remove(st.dirty[id]->Move_src),
            ..st
        }
    } else {
        Sim { locked: st.locked.remove(id), processed: st.processed.insert(id), ..st }
    }
}

/// Entering a fresh identifier keeps the invariant.
pub proof fn lemma_lock(old: Seq<Item>, new: Seq<Item>, st: Sim, id: u64)
    requires
        inv(old, new, st),
        anc_live(old, st),
        has_id(old, id),
        !st.locked.contains(id),
        !st.processed.contains(id),
    ensures
        inv(old, new, lock(st, id)),
        anc_live(old, lock(st, id)),
{
}

/// Serving a destination whose path is free keeps the invariant.
pub proof fn lemma_place(old: Seq<Item>, new: Seq<Item>, st: Sim, a: int, k: int, moving: bool)
    requires
        inv(old, new, st),
        0 <= a < old.len(),
        0 <= k < new.len(),
        new[k].id == old[a].id,
        new[k].path != old[a].path,
        st.locked.contains(old[a].id->0),
        holds(st.tree, old[a]),
        !st.handled.contains(k),
        pos(old).contains_key(new[k].path) ==> st.processed.contains(
            old[pos(old)[new[k].path]].id->0,
        ),
        moving ==> !holds(state_of(new), old[a]),
    ensures
        op_enabled(st.tree, transfer(moving, old[a].path, new[k].path)),
        inv(old, new, place(old, new, st, a, k, moving)),
        !moving ==> holds(place(old, new, st, a, k, moving).tree, old[a]),
        moving ==> !place(old, new, st, a, k, moving).tree.contains_key(old[a].path),
        forall|c: int|
            0 <= c < old.len() && c != a && holds(st.tree, #[trigger] old[c]) ==> holds(
                place(old, new, st, a, k, moving).tree,
                old[c],
            ) || st.processed.contains(old[c].id->0),
{
}

/// Parking content at a fresh backup path, to wait for a locked
/// identifier, keeps the invariant.
pub proof fn lemma_park(
    old: Seq<Item>,
    new: Seq<Item>,
    st: Sim,
    a: int,
    k: int,
    moving: bool,
    backup: Seq<char>,
    victim: u64,
)
    requires
        inv(old, new, st),
        0 <= a < old.len(),
        0 <= k < new.len(),
        new[k].id == old[a].id,
        new[k].path != old[a].path,
        st.locked.contains(old[a].id->0),
        holds(st.tree, old[a]),
        !st.handled.contains(k),
        pos(old).contains_key(new[k].path),
        old[pos(old)[new[k].path]].id == Some(victim),
        st.locked.contains(victim),
        !st.taken.contains(backup),
        moving ==> !holds(state_of(new), old[a]),
    ensures
        op_enabled(st.tree, transfer(moving, old[a].path, backup)),
        inv(old, new, park(old, new, st, a, k, moving, backup, victim)),
        !moving ==> holds(park(old, new, st, a, k, moving, backup, victim).tree, old[a]),
        moving ==> !park(old, new, st, a, k, moving, backup, victim).tree.contains_key(
            old[a].path,
        ),
        forall|c: int|
            0 <= c < old.len() && c != a && holds(st.tree, #[trigger] old[c]) ==> holds(
                park(old, new, st, a, k, moving, backup, victim).tree,
                old[c],
            ),
{
}

/// Removing the file of an identifier that the new listing drops keeps the
/// invariant.
pub proof fn lemma_drop_source(old: Seq<Item>, new: Seq<Item>, st: Sim, a: int)
    requires
        inv(old, new, st),
        0 <= a < old.len(),
        st.locked.contains(old[a].id->0),
        holds(st.tree, old[a]),
        !holds(state_of(new), old[a]),
    ensures
        op_enabled(st.tree, Op::Remove { path: old[a].path }),
        inv(old, new, drop_source(old, st, a)),
        !drop_source(old, st, a).tree.contains_key(old[a].path),
        forall|c: int|
            0 <= c < old.len() && c != a && holds(st.tree, #[trigger] old[c]) ==> holds(
                drop_source(old, st, a).tree,
                old[c],
            ),
{
}

/// Leaving an identifier, once all its destinations are served, keeps the
/// invariant; a parked copy that waited for its path moves in.
pub proof fn lemma_finish(old: Seq<Item>, new: Seq<Item>, st: Sim, a: int)
    requires
        inv(old, new, st),
        0 <= a < old.len(),
        st.locked.contains(old[a].id->0),
        forall|k: int|
            0 <= k < new.len() && (#[trigger] new[k]).id == old[a].id ==> holds(
                state_of(old),
                new[k],
            ) || st.handled.contains(k),
        holds(state_of(new), old[a]) ==> holds(st.tree, old[a]),
        !holds(state_of(new), old[a]) ==> !st.tree.contains_key(old[a].path),
        forall|c: int|
            0 <= c < old.len() && c != a && st.locked.contains((#[trigger] old[c]).id->0)
                ==> holds(st.tree, old[c]),
    ensures
        st.dirty.contains_key(old[a].id->0) ==> op_enabled(st.tree, st.dirty[old[a].id->0]),
        inv(old, new, finish(st, old[a].id->0)),
        anc_live(old, finish(st, old[a].id->0)),
{
}

/// Once every identifier is processed, the tree holds exactly the entries
/// of the new listing that have an identifier.
pub proof fn lemma_all_processed(old: Seq<Item>, new: Seq<Item>, st: Sim)
    requires
        inv(old, new, st),
        st.locked =~= Set::empty(),
        forall|a: int| 0 <= a < old.len() ==> st.processed.contains((#[trigger] old[a]).id->0),
    ensures
        forall|k: int|
            0 <= k < new.len() && (#[trigger] new[k]).id is Some ==> holds(st.tree, new[k]),
        forall|p: Seq<char>| #[trigger]
            st.tree.contains_key(p) ==> pos(new).contains_key(p) && new[pos(new)[p]].id is Some,
{
}

/// The invariant holds at the start of a run.
pub proof fn lemma_start(old: Seq<Item>, new: Seq<Item>)
    requires
        old_listing_valid(old),
        new_listing_valid(new, old),
    ensures
        inv(old, new, start(old, new)),
        anc_live(old, start(old, new)),
{
    lemma_paths_finite(old);
    lemma_paths_finite(new);
    let paths = Set::new(|p: Seq<char>| has_path(old, p)).union(
        Set::new(|p: Seq<char>| has_path(new, p)),
    );
    assert(start(old, new).taken.subset_of(paths)) by {
        assert forall|p: Seq<char>| claims(new, p) implies has_path(new, p) by {
            let k = choose|k: int|
                0 <= k < new.len() && (#[trigger] new[k]).path == p && new[k].id is Some;
        }
    }
    vstd::set_lib::lemma_set_subset_finite(paths, start(old, new).taken);
}

/// The identifiers of a listing.
pub open spec fn id_set(l: Seq<Item>) -> Set<u64> {
    Set::new(|id: u64| has_id(l, id))
}

/// The identifiers of a listing form a finite set.
pub proof fn lemma_ids_finite(l: Seq<Item>)
    ensures
        id_set(l).finite(),
        id_set(l).len() <= l.len(),
    decreases l.len(),
{
    let s = id_set(l);
    if l.len() == 0 {
        assert(s =~= Set::empty());
    } else {
        let r = l.drop_last();
        lemma_ids_finite(r);
        let sr = id_set(r);
        let grown = if l.last().id is Some {
            sr.insert(l.last().id->0)
        } else {
            sr
        };
        assert forall|id: u64| s.contains(id) <==> grown.contains(id) by {
            if has_id(l, id) {
                let i = choose|i: int| 0 <= i < l.len() && (#[trigger] l[i]).id == Some(id);
                if i < r.len() {
                    assert(r[i].id == Some(id));
                }
            }
        }
        assert(s =~= grown);
    }
}

/// While an identifier of the listing is not locked, fewer identifiers are
/// locked than the listing has.
pub proof fn lemma_lock_room(old: Seq<Item>, locked: Set<u64>, id: u64)
    requires
        locked.finite(),
        forall|j: u64| #[trigger] locked.contains(j) ==> has_id(old, j),
        has_id(old, id),
        !locked.contains(id),
    ensures
        locked.len() < id_set(old).len(),
        locked.insert(id).len() == locked.len() + 1,
{
    lemma_ids_finite(old);
    vstd::set_lib::lemma_len_subset(locked.insert(id), id_set(old));
}

/// The paths of a listing form a finite set.
pub proof fn lemma_paths_finite(l: Seq<Item>)
    ensures
        Set::new(|p: Seq<char>| has_path(l, p)).finite(),
        Set::new(|p: Seq<char>| has_path(l, p)).len() <= l.len(),
    decreases l.len(),
{
    let s = Set::new(|p: Seq<char>| has_path(l, p));
    if l.len() == 0 {
        assert(s =~= Set::empty());
    } else {
        let r = l.drop_last();
        lemma_paths_finite(r);
        let sr = Set::new(|p: Seq<char>| has_path(r, p));
        assert forall|p: Seq<char>| s.contains(p) <==> sr.insert(l.last().path).contains(p) by {
            if has_path(l, p) {
                let i = choose|i: int| 0 <= i < l.len() && (#[trigger] l[i]).path == p;
                if i < r.len() {
                    assert(r[i].path == p);
                }
            }
        }
        assert(s =~= sr.insert(l.last().path));
    }
}

} // verus!
