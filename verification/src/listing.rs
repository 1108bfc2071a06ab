//! Listings as mathematical objects: when one is well formed, and which
//! tree it describes.

use vstd::prelude::*;
use crate::entry::Item;
use crate::fsutils::fsop::{lemma_content_descends, plan_apply, plan_valid, Op, Tree};

verus! {

/// Whether some entry of `l` has the path `p`.
pub open spec fn has_path(l: Seq<Item>, p: Seq<char>) -> bool {
    exists|i: int| 0 <= i < l.len() && (#[trigger] l[i]).path == p
}

/// Whether some entry of `l` has the identifier `id`.
pub open spec fn has_id(l: Seq<Item>, id: u64) -> bool {
    exists|i: int| 0 <= i < l.len() && (#[trigger] l[i]).id == Some(id)
}

/// No two entries of `l` share a path.
pub open spec fn paths_unique(l: Seq<Item>) -> bool {
    forall|i: int, j: int|
        0 <= i < j < l.len() ==> (#[trigger] l[i]).path != (#[trigger] l[j]).path
}

/// Every entry of `l` has an identifier.
pub open spec fn ids_present(l: Seq<Item>) -> bool {
    forall|i: int| 0 <= i < l.len() ==> (#[trigger] l[i]).id is Some
}

/// No two entries of `l` share an identifier.
pub open spec fn ids_unique(l: Seq<Item>) -> bool {
    forall|i: int, j: int|
        0 <= i < j < l.len() && (#[trigger] l[i]).id is Some ==> l[i].id != (#[trigger] l[j]).id
}

/// A listing of the tree as it is: every entry has an identifier, and
/// identifiers and paths each occur once.
pub open spec fn old_listing_valid(l: Seq<Item>) -> bool {
    &&& ids_present(l)
    &&& ids_unique(l)
    &&& paths_unique(l)
}

/// Every identifier that `new` mentions belongs to an entry of `old`.
pub open spec fn ids_known(new: Seq<Item>, old: Seq<Item>) -> bool {
    forall|k: int|
        0 <= k < new.len() && (#[trigger] new[k]).id is Some ==> has_id(old, new[k].id->0)
}

/// A listing of the tree as it should be, relative to the listing `old` of
/// the tree as it is: paths occur once, and identifiers are those of `old`.
/// One identifier may occur many times, and entries may have none.
pub open spec fn new_listing_valid(new: Seq<Item>, old: Seq<Item>) -> bool {
    &&& ids_known(new, old)
    &&& paths_unique(new)
}

/// The index of an entry of `l` with path `p`.
pub open spec fn index_of(l: Seq<Item>, p: Seq<char>) -> int {
    choose|i: int| 0 <= i < l.len() && (#[trigger] l[i]).path == p
}

/// The positions of the paths of `l`: a map from each path to the index of
/// an entry that has it.
pub open spec fn pos(l: Seq<Item>) -> Map<Seq<char>, int> {
    Map::new(|p: Seq<char>| has_path(l, p), |p: Seq<char>| index_of(l, p))
}

/// The tree that `l` describes: its paths, each with the identifier that
/// its entry gives.
pub open spec fn state_of(l: Seq<Item>) -> Tree {
    Map::new(|p: Seq<char>| has_path(l, p), |p: Seq<char>| l[index_of(l, p)].id)
}

/// The tree with the files that have content: those that were not created
/// empty.
pub open spec fn with_content(tree: Tree) -> Tree {
    tree.restrict(Set::new(|p: Seq<char>| tree[p] is Some))
}

/// Whether `l` gives content to the path `p`: some entry of `l` has the
/// path, and an identifier.
pub open spec fn claims(l: Seq<Item>, p: Seq<char>) -> bool {
    exists|k: int| 0 <= k < l.len() && (#[trigger] l[k]).path == p && l[k].id is Some
}

/// Whether `tree` has the path of `item`, holding the content that `item`
/// names.
pub open spec fn holds(tree: Tree, item: Item) -> bool {
    tree.contains_key(item.path) && tree[item.path] == item.id
}

/// In a listing with unique paths, a path leads back to the one entry that
/// has it.
pub proof fn lemma_pos(l: Seq<Item>)
    requires
        paths_unique(l),
    ensures
        forall|i: int|
            0 <= i < l.len() ==> pos(l).contains_key((#[trigger] l[i]).path) && pos(l)[l[i].path]
                == i,
        forall|p: Seq<char>| #[trigger]
            pos(l).contains_key(p) ==> 0 <= pos(l)[p] < l.len() && l[pos(l)[p]].path == p,
        forall|p: Seq<char>| has_path(l, p) <==> #[trigger] pos(l).contains_key(p),
        forall|p: Seq<char>| #[trigger]
            state_of(l).contains_key(p) <==> pos(l).contains_key(p),
        forall|p: Seq<char>| #[trigger]
            pos(l).contains_key(p) ==> state_of(l)[p] == l[pos(l)[p]].id,
        forall|i: int| 0 <= i < l.len() ==> holds(state_of(l), #[trigger] l[i]),
{
}

/// Where a valid plan leads from the tree of `old` to the tree of `new`,
/// every identifier that `new` gives to a path is there in the end, and the
/// content has come, through copies and moves, from the file that had the
/// identifier in `old`.
pub proof fn lemma_ids_preserved(old: Seq<Item>, new: Seq<Item>, plan: Seq<Op>, k: int)
    requires
        old_listing_valid(old),
        paths_unique(new),
        plan_valid(state_of(old), plan),
        plan_apply(state_of(old), plan) == state_of(new),
        0 <= k < new.len(),
        new[k].id is Some,
    ensures
        holds(plan_apply(state_of(old), plan), new[k]),
        exists|a: int| 0 <= a < old.len() && (#[trigger] old[a]).id == new[k].id,
{
    lemma_content_descends(state_of(old), plan, new[k].path, new[k].id->0);
}

} // verus!
