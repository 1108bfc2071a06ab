//! The walk over the identifiers of the old listing, which emits the
//! copies, moves and removals of a plan.

use std::collections::{HashMap, HashSet};
use vstd::prelude::*;
use vstd::hash_map::StringHashMap;
use vstd::hash_set::StringHashSet;
use crate::backup::{backup_candidate, gen_backup_path};
use crate::entry::{listing, Entry, Item};
use crate::fsutils::fsop::{lemma_plan_push, plan_apply, plan_of, plan_valid, FsOp, Op};
use crate::listing::{
    claims, has_id, has_path, holds, lemma_pos, new_listing_valid, old_listing_valid, state_of,
    with_content,
};
use crate::planner::plan::{
    first, is_dest, is_last, lemma_pass_over, left, parked_for, placed_at, planned, serve_from,
    visit, walked, Walk,
};
use crate::planner::sim::{
    anc_live, finish, id_set, inv, lemma_all_processed, lemma_drop_source, lemma_finish,
    lemma_ids_finite, lemma_lock, lemma_lock_room, lemma_park, lemma_place, lemma_start, park,
    transfer, Sim,
};

verus! {

broadcast use vstd::std_specs::hash::group_hash_axioms;

/// Whether the content at `path` stays where it is: the new tree has the
/// path, with the content that the old tree has there.
pub open spec fn stays(old: Seq<Item>, new: Seq<Item>, path: Seq<char>) -> bool {
    state_of(new).contains_key(path) && state_of(new)[path] == state_of(old)[path]
}

/// Whether an operation from `src` to `dst` serves a destination: `src`
/// is a path of the old tree, and `dst` another path, to which the new tree
/// gives the content that `src` has in the old one.
pub open spec fn serves(old: Seq<Item>, new: Seq<Item>, src: Seq<char>, dst: Seq<char>) -> bool {
    &&& src != dst
    &&& state_of(old).contains_key(src)
    &&& state_of(new).contains_key(dst)
    &&& state_of(new)[dst] == state_of(old)[src]
}

/// Whether an operation from `src` to `dst` parks content: `src` is a
/// path of the old tree, and `dst` a backup path for it that the old tree
/// lacks and that the new tree gives no content.
pub open spec fn parks(old: Seq<Item>, new: Seq<Item>, src: Seq<char>, dst: Seq<char>) -> bool {
    &&& state_of(old).contains_key(src)
    &&& !state_of(old).contains_key(dst)
    &&& !with_content(state_of(new)).contains_key(dst)
    &&& exists|i: nat| dst == #[trigger] backup_candidate(src, i)
}

/// Whether an operation from `src` to `dst` brings parked content home:
/// `src` is a path that the old tree lacks and that the new tree gives no
/// content, and `dst` a path of the old tree to which the new tree gives
/// content.
pub open spec fn lands(old: Seq<Item>, new: Seq<Item>, src: Seq<char>, dst: Seq<char>) -> bool {
    &&& !state_of(old).contains_key(src)
    &&& !with_content(state_of(new)).contains_key(src)
    &&& state_of(old).contains_key(dst)
    &&& with_content(state_of(new)).contains_key(dst)
}

/// Whether the walk from `old` to `new` has a reason for `op`. A removal
/// is for a file whose identifier the new listing drops. A copy serves a
/// destination or parks content. A move does the same, for content that does
/// not stay where it is, or brings parked content home. The walk creates
/// nothing.
pub open spec fn justified(old: Seq<Item>, new: Seq<Item>, op: Op) -> bool {
    match op {
        Op::Create { path } => false,
        Op::Remove { path } => state_of(old).contains_key(path) && state_of(old)[path] is Some
            && !has_id(new, state_of(old)[path]->0),
        Op::Copy { src, dst } => serves(old, new, src, dst) || parks(old, new, src, dst),
        Op::Move { src, dst } => ((serves(old, new, src, dst) || parks(old, new, src, dst))
            && !stays(old, new, src)) || lands(old, new, src, dst),
    }
}

/// Whether `ks` lists, in rising order, the entries among the first `upto`
/// of `new` that have the identifier `id`.
spec fn is_dests(new: Seq<Item>, upto: int, id: u64, ks: Seq<usize>) -> bool {
    &&& forall|t: int|
        0 <= t < ks.len() ==> (#[trigger] ks[t]) < upto && new[ks[t] as int].id == Some(id)
    &&& forall|t: int, u: int| 0 <= t < u < ks.len() ==> (#[trigger] ks[t]) < (#[trigger] ks[u])
    &&& forall|k: int|
        0 <= k < upto && (#[trigger] new[k]).id == Some(id) ==> exists|t: int|
            0 <= t < ks.len() && (#[trigger] ks[t]) == k
}

/// The tables that the walk consults.
struct Lookup {
    /// For each identifier of the old listing, the index of its entry.
    old_id_to_index: HashMap<u64, usize>,
    /// For each path of the old listing, the identifier of its entry.
    old_path_to_id: StringHashMap<u64>,
    /// For each identifier that the new listing uses, the indices of the
    /// entries that use it, in rising order.
    new_id_to_dests: HashMap<u64, Vec<usize>>,
}

impl Lookup {
    spec fn wf(&self, old: Seq<Item>, new: Seq<Item>) -> bool {
        &&& forall|a: int|
            0 <= a < old.len() ==> self.old_id_to_index@.contains_key((#[trigger] old[a]).id->0)
                && self.old_id_to_index@[old[a].id->0] == a
        &&& forall|a: int|
            0 <= a < old.len() ==> self.old_path_to_id@.contains_key((#[trigger] old[a]).path)
                && self.old_path_to_id@[old[a].path] == old[a].id->0
        &&& forall|p: Seq<char>| #[trigger]
            self.old_path_to_id@.contains_key(p) ==> has_path(old, p)
        &&& forall|id: u64| #[trigger]
            self.new_id_to_dests@.contains_key(id) ==> is_dests(
                new,
                new.len() as int,
                id,
                self.new_id_to_dests@[id]@,
            )
        &&& forall|k: int|
            0 <= k < new.len() && (#[trigger] new[k]).id is Some
                ==> self.new_id_to_dests@.contains_key(new[k].id->0)
    }
}

/// What the walk has done so far.
struct Session {
    /// The operations emitted.
    ops: Vec<FsOp>,
    /// Every path in use, now or later.
    taken: StringHashSet,
    processed: HashSet<u64>,
    locked: HashSet<u64>,
    dirty: HashMap<u64, FsOp>,
    handled: Ghost<Set<int>>,
    backups: Ghost<Map<Seq<char>, u64>>,
}

impl Session {
    /// The session as a mathematical object, for a walk that started from
    /// the listing `old`.
    spec fn sim(&self, old: Seq<Item>) -> Sim {
        Sim {
            tree: plan_apply(state_of(old), plan_of(self.ops@)),
            processed: self.processed@,
            locked: self.locked@,
            dirty: Map::new(|v: u64| self.dirty@.contains_key(v), |v: u64| self.dirty@[v]@),
            taken: self.taken@,
            handled: self.handled@,
            backups: self.backups@,
        }
    }

    /// The session as the walk that it is.
    spec fn walk(&self) -> Walk {
        Walk {
            ops: plan_of(self.ops@),
            taken: self.taken@,
            processed: self.processed@,
            locked: self.locked@,
            dirty: Map::new(|v: u64| self.dirty@.contains_key(v), |v: u64| self.dirty@[v]@),
        }
    }

    /// The operations emitted so far can run, and the invariant holds of
    /// what they leave.
    spec fn ok(&self, old: Seq<Item>, new: Seq<Item>) -> bool {
        &&& plan_valid(state_of(old), plan_of(self.ops@))
        &&& inv(old, new, self.sim(old))
        &&& forall|i: int|
            0 <= i < self.ops.len() ==> justified(old, new, (#[trigger] self.ops[i])@)
    }
}

/// The copy or move of `src` to `dst`.
fn transfer_op(moving: bool, src: String, dst: String) -> (op: FsOp)
    ensures
        op@ == transfer(moving, src@, dst@),
{
    if moving {
        FsOp::MoveFile { src, dst }
    } else {
        FsOp::CopyFile { src, dst }
    }
}

/// Whether one of the entries `dests` of the new listing has the path
/// `old_path`.
fn keeps_path(new_entries: &Vec<Entry>, dests: &Vec<usize>, old_path: &String) -> (keep: bool)
    requires
        forall|t: int| 0 <= t < dests.len() ==> (#[trigger] dests[t]) < new_entries.len(),
    ensures
        keep == exists|t: int|
            0 <= t < dests.len() && new_entries[(#[trigger] dests[t]) as int].path@ == old_path@,
{
    let mut t: usize = 0;
    while t < dests.len()
        invariant
            t <= dests.len(),
            forall|u: int| 0 <= u < dests.len() ==> (#[trigger] dests[u]) < new_entries.len(),
            forall|u: int|
                0 <= u < t ==> new_entries[(#[trigger] dests[u]) as int].path@ != old_path@,
        decreases dests.len() - t,
    {
        if new_entries[dests[t]].path == *old_path {
            return true;
        }
        t += 1;
    }
    false
}

/// The place in the new listing up to which the walk has come when it is
/// about to serve destination `t` of `ks`: behind the destination before.
spec fn reached(ks: Seq<usize>, t: int) -> int {
    if t == 0 {
        0
    } else {
        ks[t - 1] + 1
    }
}

/// Between the destination before and destination `t` lies no other, and
/// destination `t` is the last entry with its identifier exactly if it is
/// the last of the list.
proof fn lemma_next_dest(old: Seq<Item>, new: Seq<Item>, a: int, id: u64, ks: Seq<usize>, t: int)
    requires
        is_dests(new, new.len() as int, id, ks),
        old[a].id == Some(id),
        0 <= t < ks.len(),
    ensures
        0 <= reached(ks, t) <= ks[t] < new.len(),
        new[ks[t] as int].id == old[a].id,
        forall|j: int| reached(ks, t) <= j < ks[t] ==> !is_dest(old, new, a, j),
        is_last(new, ks[t] as int) == (t + 1 == ks.len()),
{
    assert forall|j: int| reached(ks, t) <= j < ks[t] implies !is_dest(old, new, a, j) by {
        if new[j].id == Some(id) {
            let u = choose|u: int| 0 <= u < ks.len() && (#[trigger] ks[u]) == j;
            if u < t - 1 {
                assert(ks[u] < ks[t - 1]);
            } else if u > t {
                assert(ks[t] < ks[u]);
            }
        }
    }
    if t > 0 {
        assert(ks[t - 1] < ks[t]);
    }
    if t + 1 < ks.len() {
        assert(ks[t] < ks[t + 1]);
        assert(new[ks[t + 1] as int].id == Some(id));
    } else {
        assert forall|j: int| ks[t] < j < new.len() implies (#[trigger] new[j]).id
            != new[ks[t] as int].id by {
            if new[j].id == Some(id) {
                let u = choose|u: int| 0 <= u < ks.len() && (#[trigger] ks[u]) == j;
                if u < t {
                    assert(ks[u] < ks[t]);
                }
            }
        }
    }
}

/// Behind the last destination lies no other, and the list is empty
/// exactly if the new listing lacks the identifier.
proof fn lemma_no_more_dests(old: Seq<Item>, new: Seq<Item>, a: int, id: u64, ks: Seq<usize>)
    requires
        is_dests(new, new.len() as int, id, ks),
        old[a].id == Some(id),
    ensures
        0 <= reached(ks, ks.len() as int) <= new.len(),
        forall|j: int| reached(ks, ks.len() as int) <= j < new.len() ==> !is_dest(old, new, a, j),
        has_id(new, id) == (ks.len() > 0),
{
    let n = ks.len() as int;
    assert forall|j: int| reached(ks, n) <= j < new.len() implies !is_dest(old, new, a, j) by {
        if new[j].id == Some(id) {
            let u = choose|u: int| 0 <= u < ks.len() && (#[trigger] ks[u]) == j;
            if u < n - 1 {
                assert(ks[u] < ks[n - 1]);
            }
        }
    }
    if n > 0 {
        assert(new[ks[0] as int].id == Some(id));
        assert(ks[n - 1] < new.len());
    }
    if has_id(new, id) {
        let j = choose|j: int| 0 <= j < new.len() && (#[trigger] new[j]).id == Some(id);
        let u = choose|u: int| 0 <= u < ks.len() && (#[trigger] ks[u]) == j;
    }
}

/// Serves the destinations of the identifier `id`, unless that was done
/// before: each path that the new listing gives to `id` receives a copy of
/// its file, the last of them the file itself where the old path is not
/// kept. A destination held by an identifier that was not reached yet is
/// cleared first, by serving that identifier; one held by an identifier that
/// is being served further up is a cycle, and the content waits at a backup
/// path until that identifier is done.
fn process(
    id: u64,
    session: &mut Session,
    lookup: &Lookup,
    old_entries: &Vec<Entry>,
    new_entries: &Vec<Entry>,
    Ghost(depth): Ghost<nat>,
)
    requires
        lookup.wf(listing(old_entries@), listing(new_entries@)),
        old(session).ok(listing(old_entries@), listing(new_entries@)),
        depth + old(session).locked@.len() >= id_set(listing(old_entries@)).len(),
        anc_live(listing(old_entries@), old(session).sim(listing(old_entries@))),
        has_id(listing(old_entries@), id),
        !old(session).locked@.contains(id),
    ensures
        final(session).ok(listing(old_entries@), listing(new_entries@)),
        forall|a: int|
            0 <= a < old_entries.len() && (#[trigger] listing(old_entries@)[a]).id == Some(id)
                ==> final(session).walk() == visit(
                listing(old_entries@),
                listing(new_entries@),
                old(session).walk(),
                a,
                depth,
            ),
        anc_live(listing(old_entries@), final(session).sim(listing(old_entries@))),
        final(session).locked@ == old(session).locked@,
        final(session).processed@.contains(id),
        forall|j: u64| #[trigger]
            old(session).processed@.contains(j) ==> final(session).processed@.contains(j),
        forall|k: int| #[trigger]
            old(session).handled@.contains(k) ==> final(session).handled@.contains(k),
        forall|k: int|
            0 <= k < new_entries.len() && old(session).locked@.contains(
                listing(new_entries@)[k].id->0,
            ) && #[trigger] final(session).handled@.contains(k) ==> old(session).handled@.contains(
                k,
            ),
        listing(new_entries@) == listing(old_entries@) ==> final(session).ops@ == old(
            session,
        ).ops@,
    decreases id_set(listing(old_entries@)).len() - old(session).locked@.len(),
{
    let ghost was = listing(old_entries@);
    let ghost want = listing(new_entries@);
    if session.processed.contains(&id) {
        return ;
    }
    proof {
        lemma_pos(was);
        lemma_pos(want);
        lemma_lock_room(was, session.locked@, id);
    }
    let a: usize = *lookup.old_id_to_index.get(&id).unwrap();
    let old_path = &old_entries[a].path;
    let ghost pre = session.sim(was);
    let ghost before = session.walk();
    session.locked.insert(id);
    let ghost entered = session.walk();
    proof {
        lemma_lock(was, want, pre, id);
        assert(entered =~= Walk { locked: before.locked.insert(id), ..before });
    }
    let empty: Vec<usize> = Vec::new();
    let dests: &Vec<usize> = match lookup.new_id_to_dests.get(&id) {
        Some(dests) => dests,
        None => &empty,
    };
    let keep = keeps_path(new_entries, dests, old_path);
    let mut t: usize = 0;
    let ghost mut cursor: int = 0;
    while t < dests.len()
        invariant
            t <= dests.len(),
            cursor == reached(dests@, t as int),
            depth + pre.locked.len() >= id_set(was).len(),
            serve_from(was, want, entered, a as int, 0, depth) == serve_from(
                was,
                want,
                session.walk(),
                a as int,
                cursor,
                depth,
            ),
            was == listing(old_entries@),
            want == listing(new_entries@),
            lookup.wf(was, want),
            0 <= a < was.len(),
            was[a as int].id == Some(id),
            was[a as int].path == old_path@,
            forall|c: int| 0 <= c < was.len() && c != a ==> (#[trigger] was[c]).id->0 != id,
            is_dests(want, want.len() as int, id, dests@),
            keep == holds(state_of(want), was[a as int]),
            pre == old(session).sim(was),
            !pre.locked.contains(id),
            pre.locked.finite(),
            pre.locked.len() < id_set(was).len(),
            session.ok(was, want),
            session.locked@ == pre.locked.insert(id),
            if t == dests.len() && t > 0 && !keep {
                !session.sim(was).tree.contains_key(was[a as int].path)
            } else {
                holds(session.sim(was).tree, was[a as int])
            },
            forall|c: int|
                0 <= c < was.len() && c != a && session.locked@.contains((#[trigger] was[c]).id->0)
                    ==> holds(session.sim(was).tree, was[c]),
            forall|u: int|
                0 <= u < t ==> holds(state_of(was), want[(#[trigger] dests[u]) as int])
                    || session.handled@.contains(dests[u] as int),
            forall|u: int|
                t <= u < dests.len() ==> !session.handled@.contains((#[trigger] dests[u]) as int),
            forall|j: u64| #[trigger] pre.processed.contains(j) ==> session.processed@.contains(j),
            forall|k: int| #[trigger] pre.handled.contains(k) ==> session.handled@.contains(k),
            forall|k: int|
                0 <= k < want.len() && pre.locked.contains(want[k].id->0)
                    && #[trigger] session.handled@.contains(k) ==> pre.handled.contains(k),
            want == was ==> session.ops@ == old(session).ops@,
        decreases dests.len() - t,
    {
        let k = dests[t];
        let new_path = &new_entries[k].path;
        let ghost at = session.walk();
        proof {
            lemma_next_dest(was, want, a as int, id, dests@, t as int);
            lemma_pass_over(was, want, at, a as int, cursor, k as int, depth);
            cursor = k + 1;
        }
        if !(*new_path == *old_path) {
            proof {
                lemma_pos(was);
                lemma_pos(want);
                assert(is_dest(was, want, a as int, k as int));
            }
            let moving = !keep && t + 1 == dests.len();
            let cycle_victim: Option<u64> = match lookup.old_path_to_id.get(new_path.as_str()) {
                Some(victim) => {
                    let victim: u64 = *victim;
                    if session.locked.contains(&victim) {
                        Some(victim)
                    } else {
                        process(
                            victim,
                            session,
                            lookup,
                            old_entries,
                            new_entries,
                            Ghost((depth - 1) as nat),
                        );
                        None
                    }
                },
                None => None,
            };
            let ghost mid = session.sim(was);
            let ghost cleared = session.walk();
            match cycle_victim {
                Some(victim) => {
                    let backup = gen_backup_path(old_path.as_str(), &session.taken);
                    let ghost b = backup@;
                    session.taken.insert(backup.clone());
                    let op = transfer_op(moving, old_path.clone(), backup.clone());
                    proof {
                        lemma_plan_push(state_of(was), plan_of(session.ops@), op@);
                        assert(plan_of(session.ops@.push(op)) =~= plan_of(session.ops@).push(op@));
                        lemma_park(was, want, mid, a as int, k as int, moving, b, victim);
                    }
                    session.ops.push(op);
                    session.dirty.insert(
                        victim,
                        FsOp::MoveFile { src: backup, dst: new_path.clone() },
                    );
                    session.handled = Ghost(session.handled@.insert(k as int));
                    session.backups = Ghost(session.backups@.insert(b, victim));
                    assert(session.walk() =~= parked_for(
                        was,
                        want,
                        at,
                        a as int,
                        k as int,
                        victim,
                    ));
                    assert(session.sim(was) =~= park(
                        was,
                        want,
                        mid,
                        a as int,
                        k as int,
                        moving,
                        b,
                        victim,
                    ));
                },
                None => {
                    let op = transfer_op(moving, old_path.clone(), new_path.clone());
                    proof {
                        lemma_plan_push(state_of(was), plan_of(session.ops@), op@);
                        assert(plan_of(session.ops@.push(op)) =~= plan_of(session.ops@).push(op@));
                        lemma_place(was, want, mid, a as int, k as int, moving);
                    }
                    session.ops.push(op);
                    session.handled = Ghost(session.handled@.insert(k as int));
                    assert(session.walk() =~= placed_at(was, want, cleared, a as int, k as int));
                },
            }
        } else {
            proof {
                lemma_pos(was);
                assert(!is_dest(was, want, a as int, k as int));
            }
        }
        t += 1;
    }
    let ghost served = session.walk();
    proof {
        lemma_no_more_dests(was, want, a as int, id, dests@);
        lemma_pass_over(was, want, served, a as int, cursor, want.len() as int, depth);
        assert(served == serve_from(was, want, entered, a as int, 0, depth));
    }
    proof {
        lemma_pos(was);
        lemma_pos(want);
    }
    if dests.len() == 0 {
        let ghost mid = session.sim(was);
        let op = FsOp::RemoveFile { path: old_path.clone() };
        proof {
            lemma_plan_push(state_of(was), plan_of(session.ops@), op@);
            assert(plan_of(session.ops@.push(op)) =~= plan_of(session.ops@).push(op@));
            lemma_drop_source(was, want, mid, a as int);
        }
        session.ops.push(op);
    }
    let ghost mid = session.sim(was);
    proof {
        lemma_finish(was, want, mid, a as int);
    }
    session.locked.remove(&id);
    match session.dirty.remove(&id) {
        Some(op) => {
            proof {
                lemma_plan_push(state_of(was), plan_of(session.ops@), op@);
                assert(plan_of(session.ops@.push(op)) =~= plan_of(session.ops@).push(op@));
            }
            session.backups = Ghost(session.backups@.remove(op@->Move_src));
            session.ops.push(op);
        },
        None => {},
    }
    session.processed.insert(id);
    assert(session.sim(was) =~= finish(mid, id));
    assert(session.walk() =~= visit(was, want, before, a as int, depth)) by {
        let done = if has_id(want, id) {
            served
        } else {
            Walk { ops: served.ops.push(Op::Remove { path: was[a as int].path }), ..served }
        };
        assert(session.walk() =~= left(done, id));
    }
}

/// The tables for a walk from `old_entries` to `new_entries`.
fn build_lookup(old_entries: &Vec<Entry>, new_entries: &Vec<Entry>) -> (lookup: Lookup)
    requires
        old_listing_valid(listing(old_entries@)),
    ensures
        lookup.wf(listing(old_entries@), listing(new_entries@)),
{
    let ghost was = listing(old_entries@);
    let ghost want = listing(new_entries@);
    let mut old_id_to_index: HashMap<u64, usize> = HashMap::new();
    let mut a: usize = 0;
    while a < old_entries.len()
        invariant
            a <= old_entries.len(),
            was == listing(old_entries@),
            old_listing_valid(was),
            forall|c: int|
                0 <= c < a ==> old_id_to_index@.contains_key((#[trigger] was[c]).id->0)
                    && old_id_to_index@[was[c].id->0] == c,
        decreases old_entries.len() - a,
    {
        let id = old_entries[a].id.unwrap();
        assert forall|c: int| 0 <= c < a implies (#[trigger] was[c]).id->0 != id by {
            assert(was[c].id != was[a as int].id);
        }
        old_id_to_index.insert(id, a);
        a += 1;
    }
    let mut old_path_to_id: StringHashMap<u64> = StringHashMap::new();
    let mut a: usize = 0;
    while a < old_entries.len()
        invariant
            a <= old_entries.len(),
            was == listing(old_entries@),
            old_listing_valid(was),
            forall|c: int|
                0 <= c < a ==> old_path_to_id@.contains_key((#[trigger] was[c]).path)
                    && old_path_to_id@[was[c].path] == was[c].id->0,
            forall|p: Seq<char>| #[trigger] old_path_to_id@.contains_key(p) ==> has_path(was, p),
        decreases old_entries.len() - a,
    {
        let id = old_entries[a].id.unwrap();
        assert forall|c: int| 0 <= c < a implies (#[trigger] was[c]).path
            != was[a as int].path by {}
        old_path_to_id.insert(old_entries[a].path.clone(), id);
        a += 1;
    }
    let mut new_id_to_dests: HashMap<u64, Vec<usize>> = HashMap::new();
    let mut k: usize = 0;
    while k < new_entries.len()
        invariant
            k <= new_entries.len(),
            want == listing(new_entries@),
            forall|id: u64| #[trigger]
                new_id_to_dests@.contains_key(id) ==> is_dests(
                    want,
                    k as int,
                    id,
                    new_id_to_dests@[id]@,
                ),
            forall|j: int|
                0 <= j < k && (#[trigger] want[j]).id is Some ==> new_id_to_dests@.contains_key(
                    want[j].id->0,
                ),
        decreases new_entries.len() - k,
    {
        if let Some(id) = new_entries[k].id {
            let mut dests = match new_id_to_dests.remove(&id) {
                Some(dests) => dests,
                None => Vec::new(),
            };
            let ghost earlier = dests@;
            dests.push(k);
            assert(is_dests(want, k + 1, id, dests@)) by {
                assert forall|j: int|
                    0 <= j < k + 1 && (#[trigger] want[j]).id == Some(id) implies exists|t: int|
                    0 <= t < dests.len() && (#[trigger] dests@[t]) == j by {
                    if j < k {
                        let t = choose|t: int|
                            0 <= t < earlier.len() && (#[trigger] earlier[t]) == j;
                        assert(dests@[t] == j);
                    } else {
                        assert(dests@[earlier.len() as int] == j);
                    }
                }
            }
            new_id_to_dests.insert(id, dests);
        }
        k += 1;
    }
    Lookup { old_id_to_index, old_path_to_id, new_id_to_dests }
}

/// The copies, moves and removals that lead from the tree of `old_entries`
/// to the tree of `new_entries` without its new files: those that the walk
/// over the old entries emits, in that order. Each operation can run when its
/// turn comes: what it reads exists, and what it writes does not. Where the
/// new listing is the old one, nothing is to be done.
pub fn move_files_around_ops(old_entries: &Vec<Entry>, new_entries: &Vec<Entry>) -> (ops: Vec<FsOp>)
    requires
        old_listing_valid(listing(old_entries@)),
        new_listing_valid(listing(new_entries@), listing(old_entries@)),
    ensures
        plan_valid(state_of(listing(old_entries@)), plan_of(ops@)),
        plan_apply(state_of(listing(old_entries@)), plan_of(ops@)) == with_content(
            state_of(listing(new_entries@)),
        ),
        plan_of(ops@) == planned(listing(old_entries@), listing(new_entries@)),
        forall|i: int|
            0 <= i < ops.len() ==> justified(
                listing(old_entries@),
                listing(new_entries@),
                (#[trigger] ops[i])@,
            ),
        listing(new_entries@) == listing(old_entries@) ==> ops.len() == 0,
{
    let ghost was = listing(old_entries@);
    let ghost want = listing(new_entries@);
    let lookup = build_lookup(old_entries, new_entries);
    let mut taken = StringHashSet::new();
    let mut a: usize = 0;
    while a < old_entries.len()
        invariant
            a <= old_entries.len(),
            was == listing(old_entries@),
            taken@.finite(),
            forall|c: int| 0 <= c < a ==> taken@.contains((#[trigger] was[c]).path),
            forall|p: Seq<char>| #[trigger] taken@.contains(p) ==> has_path(was, p),
        decreases old_entries.len() - a,
    {
        assert(was[a as int].path == old_entries[a as int].path@);
        taken.insert(old_entries[a].path.clone());
        a += 1;
    }
    let mut k: usize = 0;
    while k < new_entries.len()
        invariant
            k <= new_entries.len(),
            was == listing(old_entries@),
            want == listing(new_entries@),
            taken@.finite(),
            forall|c: int| 0 <= c < was.len() ==> taken@.contains((#[trigger] was[c]).path),
            forall|j: int|
                0 <= j < k && (#[trigger] want[j]).id is Some ==> taken@.contains(want[j].path),
            forall|p: Seq<char>| #[trigger]
                taken@.contains(p) ==> has_path(was, p) || claims(want, p),
        decreases new_entries.len() - k,
    {
        assert(want[k as int] == new_entries[k as int]@);
        if new_entries[k].id.is_some() {
            taken.insert(new_entries[k].path.clone());
        }
        k += 1;
    }
    let mut session = Session {
        ops: Vec::new(),
        taken,
        processed: HashSet::new(),
        locked: HashSet::new(),
        dirty: HashMap::new(),
        handled: Ghost(Set::empty()),
        backups: Ghost(Map::empty()),
    };
    proof {
        lemma_start(was, want);
        lemma_ids_finite(was);
        assert(session.walk() =~= first(was, want)) by {
            assert forall|p: Seq<char>| claims(want, p) implies session.taken@.contains(p) by {
                let j = choose|j: int|
                    0 <= j < want.len() && (#[trigger] want[j]).path == p && want[j].id is Some;
            }
            assert forall|p: Seq<char>| has_path(was, p) implies session.taken@.contains(p) by {
                let c = choose|c: int| 0 <= c < was.len() && (#[trigger] was[c]).path == p;
            }
        }
    }
    let mut a: usize = 0;
    while a < old_entries.len()
        invariant
            a <= old_entries.len(),
            was == listing(old_entries@),
            want == listing(new_entries@),
            lookup.wf(was, want),
            session.ok(was, want),
            session.walk() == walked(was, want, a as nat),
            id_set(was).len() <= was.len(),
            session.locked@ =~= Set::<u64>::empty(),
            forall|c: int| 0 <= c < a ==> session.processed@.contains((#[trigger] was[c]).id->0),
            want == was ==> session.ops@.len() == 0,
        decreases old_entries.len() - a,
    {
        let id = old_entries[a].id.unwrap();
        assert(was[a as int].id == Some(id));
        process(
            id,
            &mut session,
            &lookup,
            old_entries,
            new_entries,
            Ghost(old_entries.len() as nat),
        );
        a += 1;
    }
    proof {
        lemma_all_processed(was, want, session.sim(was));
        lemma_pos(want);
    }
    session.ops
}

} // verus!
