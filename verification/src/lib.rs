//! Planning of directory-tree edits.
//!
//! A listing pairs each file path with the identifier of the file whose
//! content it holds. Given the listing of a tree as it is and a listing of
//! the tree as it should be, the planner produces the file operations that
//! lead from the one to the other.

pub mod backup;
pub mod decimal;
pub mod entry;
pub mod error;
pub mod fsutils;
pub mod fuzz;
pub mod listing;
pub mod planner;
pub mod text;
pub mod ui;
pub mod validate;

use std::collections::HashSet;
use vstd::prelude::*;
use crate::entry::{listing, Entry};
use crate::error::TreeEditError;
use crate::fsutils::fsop::{lemma_plan_concat, plan_apply, plan_of, plan_valid, FsOp};
use crate::listing::{has_id, new_listing_valid, old_listing_valid, state_of};
use crate::planner::create::{
    create_files_ops, create_plan, lemma_create_plan, lemma_no_creations,
};
use crate::planner::sim::id_set;
use crate::planner::plan::planned;
use crate::planner::walk::{justified, move_files_around_ops};
use crate::validate::{first_repeat, first_unknown, ids_allowed, unknown_id, validate_new_entries};

verus! {

broadcast use vstd::std_specs::hash::group_hash_axioms;

/// The identifiers of `old_entries`.
pub fn old_ids(old_entries: &Vec<Entry>) -> (ids: HashSet<u64>)
    ensures
        ids@ == id_set(listing(old_entries@)),
{
    let ghost was = listing(old_entries@);
    let mut ids: HashSet<u64> = HashSet::new();
    let mut a: usize = 0;
    while a < old_entries.len()
        invariant
            a <= old_entries.len(),
            was == listing(old_entries@),
            forall|c: int|
                0 <= c < a && (#[trigger] was[c]).id is Some ==> ids@.contains(was[c].id->0),
            forall|id: u64| #[trigger] ids@.contains(id) ==> has_id(was, id),
        decreases old_entries.len() - a,
    {
        if let Some(id) = old_entries[a].id {
            assert(was[a as int].id == Some(id));
            ids.insert(id);
        }
        a += 1;
    }
    proof {
        assert forall|id: u64| has_id(was, id) implies ids@.contains(id) by {
            let c = choose|c: int| 0 <= c < was.len() && (#[trigger] was[c]).id == Some(id);
            assert(ids@.contains(was[c].id->0));
        }
        assert(ids@ =~= id_set(was));
    }
    ids
}

/// The plan that turns the tree of `old_entries` into the tree of
/// `new_entries`.
///
/// The new listing is checked first. An identifier that the old listing
/// lacks is reported as `InvalidFileId`, else a path that occurs twice as
/// `DuplicatePath`; in both cases the first in the listing. Otherwise there
/// is a plan, and it is this one: the copies, moves and removals that the
/// walk over the old entries emits, then the creations of the new files, in
/// the order of the listing. Every operation of it can run when its turn
/// comes, and together they lead from the old tree to exactly the new one,
/// each path holding the content of the identifier that the new listing
/// gives it. Before the creations the plan holds nothing without a reason: a
/// removal of a file whose identifier was dropped, a copy or move that serves
/// a destination or parks content at a backup path, a move that brings
/// parked content home. Where the new listing is the old one, the plan is
/// empty.
pub fn diff(old_entries: &Vec<Entry>, new_entries: &Vec<Entry>) -> (result: Result<
    Vec<FsOp>,
    TreeEditError,
>)
    requires
        old_listing_valid(listing(old_entries@)),
    ensures
        result is Ok <==> new_listing_valid(listing(new_entries@), listing(old_entries@)),
        match result {
            Ok(ops) => {
                let tree = state_of(listing(old_entries@));
                let creations = create_plan(listing(new_entries@));
                &&& plan_of(ops@) == planned(listing(old_entries@), listing(new_entries@))
                    + creations
                &&& plan_valid(tree, plan_of(ops@))
                &&& plan_apply(tree, plan_of(ops@)) == state_of(listing(new_entries@))
                &&& creations.len() <= ops.len()
                &&& plan_of(ops@).skip(ops.len() - creations.len()) == creations
                &&& forall|i: int|
                    0 <= i < ops.len() - creations.len() ==> justified(
                        listing(old_entries@),
                        listing(new_entries@),
                        (#[trigger] ops[i])@,
                    )
                &&& listing(new_entries@) == listing(old_entries@) ==> ops.len() == 0
            },
            Err(TreeEditError::InvalidFileId(id)) => exists|k: int|
                first_unknown(listing(new_entries@), id_set(listing(old_entries@)), k) && Some(id)
                    == (#[trigger] new_entries[k]).id,
            Err(TreeEditError::DuplicatePath(path)) => ids_allowed(
                listing(new_entries@),
                id_set(listing(old_entries@)),
            ) && exists|j: int|
                first_repeat(listing(new_entries@), j) && path@ == #[trigger] new_entries[j].path@,
            Err(_) => false,
        },
{
    let ghost was = listing(old_entries@);
    let ghost want = listing(new_entries@);
    let allowed_ids = old_ids(old_entries);
    match validate_new_entries(new_entries, &allowed_ids) {
        Err(error) => Err(error),
        Ok(_) => {
            assert(new_listing_valid(want, was)) by {
                assert forall|k: int|
                    0 <= k < want.len() && (#[trigger] want[k]).id is Some implies has_id(
                    was,
                    want[k].id->0,
                ) by {
                    assert(!unknown_id(want, id_set(was), k));
                }
            }
            let mut ops = move_files_around_ops(old_entries, new_entries);
            let mut creations = create_files_ops(new_entries);
            let ghost moves = ops@;
            let ghost made = creations@;
            ops.append(&mut creations);
            proof {
                assert(plan_of(ops@) =~= plan_of(moves) + plan_of(made));
                lemma_create_plan(want);
                lemma_plan_concat(state_of(was), plan_of(moves), plan_of(made));
                if want == was {
                    lemma_no_creations(want);
                }
            }
            Ok(ops)
        },
    }
}

/// The listing of a tree whose files are `paths`: the files are numbered
/// from zero, in order, and each number is the identifier of its file.
pub fn number_entries(paths: &Vec<String>) -> (entries: Vec<Entry>)
    ensures
        entries.len() == paths.len(),
        forall|i: int|
            0 <= i < entries.len() ==> (#[trigger] entries[i]).id == Some(i as u64)
                && entries[i].path@ == paths[i]@,
{
    let mut entries: Vec<Entry> = Vec::new();
    let mut i: usize = 0;
    while i < paths.len()
        invariant
            i <= paths.len(),
            entries.len() == i,
            forall|j: int|
                0 <= j < i ==> (#[trigger] entries[j]).id == Some(j as u64) && entries[j].path@
                    == paths[j]@,
        decreases paths.len() - i,
    {
        entries.push(Entry::new(Some(i as u64), paths[i].clone()));
        i += 1;
    }
    entries
}

} // verus!
