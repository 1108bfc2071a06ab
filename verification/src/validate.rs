//! Checks of listings before planning.

use std::collections::HashSet;
use vstd::prelude::*;
use vstd::hash_set::StringHashSet;
use crate::entry::{listing, Entry, Item};
use crate::error::TreeEditError;
use crate::listing::{ids_present, old_listing_valid, paths_unique};

verus! {

broadcast use vstd::std_specs::hash::group_hash_axioms;

/// Whether the path of entry `j` occurs before it in `l`.
pub open spec fn repeats_path(l: Seq<Item>, j: int) -> bool {
    exists|i: int| 0 <= i < j && (#[trigger] l[i]).path == l[j].path
}

/// Whether entry `j` is the first of `l` whose path occurs before it.
pub open spec fn first_repeat(l: Seq<Item>, j: int) -> bool {
    &&& 0 <= j < l.len()
    &&& repeats_path(l, j)
    &&& forall|i: int| 0 <= i < j ==> !#[trigger] repeats_path(l, i)
}

/// Whether entry `k` of `l` has an identifier outside `allowed`.
pub open spec fn unknown_id(l: Seq<Item>, allowed: Set<u64>, k: int) -> bool {
    l[k].id is Some && !allowed.contains(l[k].id->0)
}

/// Whether entry `k` is the first of `l` with an identifier outside
/// `allowed`.
pub open spec fn first_unknown(l: Seq<Item>, allowed: Set<u64>, k: int) -> bool {
    &&& 0 <= k < l.len()
    &&& unknown_id(l, allowed, k)
    &&& forall|i: int| 0 <= i < k ==> !#[trigger] unknown_id(l, allowed, i)
}

/// Every identifier of `l` is in `allowed`.
pub open spec fn ids_allowed(l: Seq<Item>, allowed: Set<u64>) -> bool {
    forall|k: int| 0 <= k < l.len() ==> !#[trigger] unknown_id(l, allowed, k)
}

/// A listing without a repeating entry has unique paths, and the other way
/// round.
pub proof fn lemma_no_repeat(l: Seq<Item>)
    ensures
        paths_unique(l) <==> forall|j: int| 0 <= j < l.len() ==> !#[trigger] repeats_path(l, j),
{
    if forall|j: int| 0 <= j < l.len() ==> !#[trigger] repeats_path(l, j) {
        assert forall|i: int, j: int| 0 <= i < j < l.len() implies (#[trigger] l[i]).path != (
        #[trigger] l[j]).path by {
            assert(!repeats_path(l, j));
        }
    }
}

/// Checks that no path occurs twice. The error names the path of the first
/// entry that repeats an earlier one.
pub fn validate_unique_paths(entries: &Vec<Entry>) -> (result: Result<(), TreeEditError>)
    ensures
        match result {
            Ok(_) => paths_unique(listing(entries@)),
            Err(TreeEditError::DuplicatePath(path)) => exists|j: int|
                first_repeat(listing(entries@), j) && path@ == #[trigger] entries[j].path@,
            Err(_) => false,
        },
{
    let ghost l = listing(entries@);
    let mut paths = StringHashSet::new();
    let mut j: usize = 0;
    while j < entries.len()
        invariant
            j <= entries.len(),
            l == listing(entries@),
            forall|i: int| 0 <= i < j ==> paths@.contains((#[trigger] l[i]).path),
            forall|p: Seq<char>| #[trigger]
                paths@.contains(p) ==> exists|i: int| 0 <= i < j && (#[trigger] l[i]).path == p,
            forall|i: int| 0 <= i < j ==> !#[trigger] repeats_path(l, i),
        decreases entries.len() - j,
    {
        let entry = &entries[j];
        if paths.contains(entry.path.as_str()) {
            return Err(TreeEditError::DuplicatePath(entry.path.clone()));
        }
        paths.insert(entry.path.clone());
        j += 1;
    }
    proof {
        lemma_no_repeat(l);
    }
    Ok(())
}

/// Checks a listing of the tree as it should be: every identifier must be
/// in `allowed_ids`, and no path may occur twice. An unknown identifier is
/// reported before a repeated path; of several, the first.
pub fn validate_new_entries(entries: &Vec<Entry>, allowed_ids: &HashSet<u64>) -> (result: Result<
    (),
    TreeEditError,
>)
    ensures
        match result {
            Ok(_) => ids_allowed(listing(entries@), allowed_ids@) && paths_unique(
                listing(entries@),
            ),
            Err(TreeEditError::InvalidFileId(id)) => exists|k: int|
                first_unknown(listing(entries@), allowed_ids@, k) && Some(id)
                    == (#[trigger] entries[k]).id,
            Err(TreeEditError::DuplicatePath(path)) => ids_allowed(
                listing(entries@),
                allowed_ids@,
            ) && exists|j: int|
                first_repeat(listing(entries@), j) && path@ == #[trigger] entries[j].path@,
            Err(_) => false,
        },
{
    let ghost l = listing(entries@);
    let mut k: usize = 0;
    while k < entries.len()
        invariant
            k <= entries.len(),
            l == listing(entries@),
            forall|i: int| 0 <= i < k ==> !#[trigger] unknown_id(l, allowed_ids@, i),
        decreases entries.len() - k,
    {
        if let Some(id) = entries[k].id {
            if !allowed_ids.contains(&id) {
                return Err(TreeEditError::InvalidFileId(id));
            }
        }
        k += 1;
    }
    validate_unique_paths(entries)
}

/// Whether `entries` can stand for the tree as it is: every entry has an
/// identifier, and no identifier and no path occurs twice.
pub fn validate_old_entries(entries: &Vec<Entry>) -> (valid: bool)
    ensures
        valid == old_listing_valid(listing(entries@)),
{
    let ghost l = listing(entries@);
    let mut i: usize = 0;
    while i < entries.len()
        invariant
            i <= entries.len(),
            l == listing(entries@),
            forall|a: int| 0 <= a < i ==> (#[trigger] l[a]).id is Some,
        decreases entries.len() - i,
    {
        if entries[i].id.is_none() {
            assert(l[i as int].id is None);
            return false;
        }
        i += 1;
    }
    let mut ids: HashSet<u64> = HashSet::new();
    let mut i: usize = 0;
    while i < entries.len()
        invariant
            i <= entries.len(),
            l == listing(entries@),
            ids_present(l),
            forall|a: int| 0 <= a < i ==> ids@.contains((#[trigger] l[a]).id->0),
            forall|id: u64| #[trigger]
                ids@.contains(id) ==> exists|a: int| 0 <= a < i && (#[trigger] l[a]).id == Some(id),
            forall|a: int, b: int| 0 <= a < b < i ==> (#[trigger] l[a]).id != (#[trigger] l[b]).id,
        decreases entries.len() - i,
    {
        let id = entries[i].id.unwrap();
        if ids.contains(&id) {
            let ghost a = choose|a: int| 0 <= a < i && (#[trigger] l[a]).id == Some(id);
            assert(l[a].id == l[i as int].id);
            return false;
        }
        ids.insert(id);
        i += 1;
    }
    match validate_unique_paths(entries) {
        Ok(_) => true,
        Err(_) => {
            false
        },
    }
}

} // verus!
