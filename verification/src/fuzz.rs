//! Random pairs of listings, and a run of the planner on each.
//!
//! A listing of the tree as it is has 0, 1, 2, 4 and so on up to 256
//! entries, numbered from zero. A listing of the tree as it should be has
//! a size drawn in the same way; each of its entries is a new file with a
//! chance drawn for the listing, and else holds the content of an identifier
//! drawn from the old listing.

use vstd::prelude::*;
use vstd::arithmetic::power2::{lemma2_to64, pow2};
use vstd::string::StringExecFns;
use crate::decimal::{decimal, lemma_decimal_injective, to_decimal};
use crate::diff;
use crate::entry::{copy_entries, listing, Entry, Item};
use crate::fsutils::files::Files;
use crate::fsutils::fsop::exec_all;
use crate::listing::{has_id, new_listing_valid, old_listing_valid};

verus! {

/// `rand::rngs::StdRng`, which the library hands on without looking
/// inside.
#[verifier::external_type_specification]
#[verifier::external_body]
pub struct ExStdRng(rand::rngs::StdRng);

/// The generator that `SeedableRng::seed_from_u64` makes of `seed` for
/// `StdRng`. Nothing is claimed of it.
#[verifier::external_body]
fn seeded(seed: u64) -> rand::rngs::StdRng {
    rand::SeedableRng::seed_from_u64(seed)
}

/// The number that `RngCore::next_u64` draws from `rng`. Nothing is
/// claimed of it.
#[verifier::external_body]
fn next_u64(rng: &mut rand::rngs::StdRng) -> u64 {
    rand::RngCore::next_u64(rng)
}

/// The size that the draw `v` stands for: zero for one draw in ten, and
/// each power of two up to 256 for another.
pub open spec fn exp_size(v: u64) -> nat {
    if v % 10 == 0 {
        0
    } else {
        pow2((v % 10 - 1) as nat)
    }
}

/// The size that the draw `v` stands for.
pub fn size_of_draw(v: u64) -> (size: u64)
    ensures
        size == exp_size(v),
        size <= 256,
{
    proof {
        lemma2_to64();
    }
    let r = v % 10;
    if r == 0 {
        0
    } else if r == 1 {
        1
    } else if r == 2 {
        2
    } else if r == 3 {
        4
    } else if r == 4 {
        8
    } else if r == 5 {
        16
    } else if r == 6 {
        32
    } else if r == 7 {
        64
    } else if r == 8 {
        128
    } else {
        256
    }
}

/// A size drawn from `rng`.
pub fn rand_exp_size(rng: &mut rand::rngs::StdRng) -> (size: u64)
    ensures
        exists|v: u64| size == #[trigger] exp_size(v),
        size <= 256,
{
    let v = next_u64(rng);
    size_of_draw(v)
}

/// The path of the file with number `i`.
pub open spec fn numbered_path(i: nat) -> Seq<char> {
    decimal(i) + ".txt"@
}

/// Different numbers give different paths.
pub proof fn lemma_numbered_paths_differ(i: nat, j: nat)
    requires
        i != j,
    ensures
        numbered_path(i) != numbered_path(j),
{
    let a = numbered_path(i);
    let b = numbered_path(j);
    if a == b {
        assert(a.subrange(0, a.len() - ".txt"@.len()) =~= decimal(i));
        assert(b.subrange(0, b.len() - ".txt"@.len()) =~= decimal(j));
        lemma_decimal_injective(i, j);
    }
}

/// The path of the file with number `i`.
fn path_of_number(i: u64) -> (path: String)
    ensures
        path@ == numbered_path(i as nat),
{
    let mut path = to_decimal(i);
    path.append(".txt");
    path
}

/// A listing of `size` files, numbered from zero: file `i` has the
/// identifier `i`.
pub open spec fn numbered_listing(size: nat) -> Seq<Item> {
    Seq::new(size, |i: int| Item { id: Some(i as u64), path: numbered_path(i as nat) })
}

/// A numbered listing can stand for a tree as it is.
pub proof fn lemma_numbered_listing_valid(size: nat)
    requires
        size <= u64::MAX,
    ensures
        old_listing_valid(numbered_listing(size)),
{
    let l = numbered_listing(size);
    assert forall|i: int, j: int| 0 <= i < j < l.len() implies (#[trigger] l[i]).path != (
    #[trigger] l[j]).path by {
        lemma_numbered_paths_differ(i as nat, j as nat);
    }
}

/// The listing of `size` files, numbered from zero: file `i` has the
/// identifier `i` and the path that its number gives.
pub fn numbered_entries(size: u64) -> (entries: Vec<Entry>)
    ensures
        entries.len() == size,
        listing(entries@) == numbered_listing(size as nat),
        old_listing_valid(listing(entries@)),
{
    let mut entries: Vec<Entry> = Vec::new();
    let mut i: u64 = 0;
    while i < size
        invariant
            i <= size,
            entries.len() == i,
            listing(entries@) == numbered_listing(i as nat),
        decreases size - i,
    {
        let entry = Entry::new(Some(i), path_of_number(i));
        proof {
            let grown = listing(entries@.push(entry));
            let wanted = numbered_listing((i + 1) as nat);
            assert forall|j: int| 0 <= j < grown.len() implies grown[j] == wanted[j] by {
                if j < i {
                    assert(numbered_listing(i as nat)[j] == wanted[j]);
                }
            }
        }
        entries.push(entry);
        i += 1;
    }
    proof {
        lemma_numbered_listing_valid(size as nat);
    }
    entries
}

/// A listing of the tree as it is, of a size drawn from `rng`: the
/// numbered listing of that size, whichever size the draw stands for.
pub fn generate_old_entries(rng: &mut rand::rngs::StdRng) -> (entries: Vec<Entry>)
    ensures
        entries.len() <= 256,
        exists|v: u64| listing(entries@) == numbered_listing(#[trigger] exp_size(v)),
        listing(entries@) == numbered_listing(entries.len() as nat),
        old_listing_valid(listing(entries@)),
{
    let size = rand_exp_size(rng);
    numbered_entries(size)
}

/// The identifier of an entry of the new listing: none where the draw
/// `chance`, taken below a hundred, is below `percentage`; else the draw
/// `pick`, taken below the size of the old listing.
pub open spec fn drawn_id(percentage: u64, chance: u64, pick: u64, old_len: u64) -> Option<u64> {
    if chance % 100 < percentage || old_len == 0 {
        None
    } else {
        Some(pick % old_len)
    }
}

/// Whether `l` could have been generated for an old listing of `old_len`
/// entries: its paths are numbered from zero, and its identifiers are
/// below `old_len`.
pub open spec fn generated_for(l: Seq<Item>, old_len: nat) -> bool {
    forall|i: int|
        0 <= i < l.len() ==> (#[trigger] l[i]).path == numbered_path(i as nat) && (l[i].id
            matches Some(id) ==> id < old_len)
}

/// A generated listing can stand for the tree as it should be, for a
/// numbered listing of the tree as it is.
pub proof fn lemma_generated_valid(l: Seq<Item>, old_len: nat)
    requires
        generated_for(l, old_len),
        old_len <= u64::MAX,
    ensures
        new_listing_valid(l, numbered_listing(old_len)),
{
    let old = numbered_listing(old_len);
    assert forall|i: int, j: int| 0 <= i < j < l.len() implies (#[trigger] l[i]).path != (
    #[trigger] l[j]).path by {
        lemma_numbered_paths_differ(i as nat, j as nat);
    }
    assert forall|k: int| 0 <= k < l.len() && (#[trigger] l[k]).id is Some implies has_id(
        old,
        l[k].id->0,
    ) by {
        let id = l[k].id->0;
        assert(old[id as int].id == Some(id));
    }
}

/// The share of new files, in hundredths, that the draw `draw` stands for:
/// any from none to all. For an empty old listing, every file is new.
pub open spec fn drawn_percentage(old_len: u64, draw: u64) -> u64 {
    if old_len == 0 {
        100
    } else {
        (draw % 101) as u64
    }
}

/// The share of new files that the draw `draw` stands for.
pub fn percentage_of_draw(old_entries_len: u64, draw: u64) -> (percentage: u64)
    ensures
        percentage == drawn_percentage(old_entries_len, draw),
{
    if old_entries_len == 0 {
        100
    } else {
        draw % 101
    }
}

/// The listing that the draws `draws` stand for: entry `i` has the path
/// of the number `i`, and the identifier that its pair of draws gives, the
/// first as the chance and the second as the pick.
pub open spec fn drawn_listing(old_len: u64, percentage: u64, draws: Seq<(u64, u64)>) -> Seq<
    Item,
> {
    Seq::new(
        draws.len(),
        |i: int|
            Item {
                id: drawn_id(percentage, draws[i].0, draws[i].1, old_len),
                path: numbered_path(i as nat),
            },
    )
}

/// A listing made of draws has numbered paths, and identifiers of the old
/// listing.
pub proof fn lemma_drawn_generated(old_len: u64, percentage: u64, draws: Seq<(u64, u64)>)
    ensures
        generated_for(drawn_listing(old_len, percentage, draws), old_len as nat),
{
}

/// The listing of the tree as it should be that the draws `draws` stand
/// for, with `percentage` hundredths of new files, for an old listing of
/// `old_entries_len` entries.
pub fn new_entries_of_draws(
    old_entries_len: u64,
    percentage: u64,
    draws: &Vec<(u64, u64)>,
) -> (entries: Vec<Entry>)
    ensures
        entries.len() == draws.len(),
        listing(entries@) == drawn_listing(old_entries_len, percentage, draws@),
{
    let mut entries: Vec<Entry> = Vec::new();
    let mut i: usize = 0;
    while i < draws.len()
        invariant
            i <= draws.len(),
            entries.len() == i,
            forall|j: int|
                0 <= j < i ==> (#[trigger] entries[j])@ == drawn_listing(
                    old_entries_len,
                    percentage,
                    draws@,
                )[j],
        decreases draws.len() - i,
    {
        let (chance, pick) = draws[i];
        let id = if chance % 100 < percentage || old_entries_len == 0 {
            None
        } else {
            Some(pick % old_entries_len)
        };
        entries.push(Entry::new(id, path_of_number(i as u64)));
        i += 1;
    }
    entries
}

/// A listing of the tree as it should be, for an old listing of
/// `old_entries_len` entries: its size is drawn from `rng`, then the share
/// of new files, then for each entry the chance and, where the entry is not
/// a new file, the pick. The listing is the one that these draws stand for,
/// whatever they are.
pub fn generate_new_entries(old_entries_len: u64, rng: &mut rand::rngs::StdRng) -> (entries: Vec<
    Entry,
>)
    ensures
        entries.len() <= 256,
        exists|v: u64, d: u64, draws: Seq<(u64, u64)>|
            draws.len() == #[trigger] exp_size(v) && listing(entries@) == #[trigger] drawn_listing(
                old_entries_len,
                drawn_percentage(old_entries_len, d),
                draws,
            ),
        generated_for(listing(entries@), old_entries_len as nat),
{
    let size = rand_exp_size(rng);
    let ghost v = choose|v: u64| size == #[trigger] exp_size(v);
    let draw = if old_entries_len == 0 {
        0
    } else {
        next_u64(rng)
    };
    let new_file_percentage = percentage_of_draw(old_entries_len, draw);
    let mut draws: Vec<(u64, u64)> = Vec::new();
    let mut i: u64 = 0;
    while i < size
        invariant
            i <= size <= 256,
            draws.len() == i,
        decreases size - i,
    {
        let chance = next_u64(rng);
        let pick = if chance % 100 < new_file_percentage {
            0
        } else {
            next_u64(rng)
        };
        draws.push((chance, pick));
        i += 1;
    }
    let entries = new_entries_of_draws(old_entries_len, new_file_percentage, &draws);
    proof {
        lemma_drawn_generated(old_entries_len, new_file_percentage, draws@);
    }
    entries
}

/// Plans the edit from `old_entries` to `new_entries`, runs the plan on
/// the old tree and compares what comes out with the new tree. The answer is
/// yes exactly where the new listing is valid: then there is a plan, it
/// runs, and it leads to the new tree.
pub fn plan_holds(old_entries: &Vec<Entry>, new_entries: &Vec<Entry>) -> (same: bool)
    requires
        old_listing_valid(listing(old_entries@)),
    ensures
        same == new_listing_valid(listing(new_entries@), listing(old_entries@)),
{
    match diff(old_entries, new_entries) {
        Ok(ops) => {
            match Files::from_entries(copy_entries(old_entries)) {
                Ok(mut files) => {
                    match exec_all(&ops, &mut files) {
                        Ok(_) => files.matches(new_entries),
                        Err(_) => false,
                    }
                },
                Err(_) => false,
            }
        },
        Err(_) => false,
    }
}

/// Generates a pair of listings from `seed`, plans the edit from the one
/// to the other, runs the plan on the old tree and compares what comes out
/// with the new tree. The comparison never fails.
pub fn run(seed: u64) -> (same: bool)
    ensures
        same,
{
    let mut rng = seeded(seed);
    let old_entries = generate_old_entries(&mut rng);
    let new_entries = generate_new_entries(old_entries.len() as u64, &mut rng);
    proof {
        lemma_generated_valid(listing(new_entries@), old_entries.len() as nat);
    }
    plan_holds(&old_entries, &new_entries)
}

} // verus!
