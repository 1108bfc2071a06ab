//! Names for the backup files that break a cycle.

use vstd::prelude::*;
use vstd::hash_set::StringHashSet;
use vstd::string::StringExecFns;
use crate::decimal::{decimal, lemma_decimal_injective, push_decimal};

verus! {

/// The `i`-th name tried for a backup of `base`: `base.backup`, then
/// `base.backup-1`, `base.backup-2` and so on.
pub open spec fn backup_candidate(base: Seq<char>, i: nat) -> Seq<char> {
    if i == 0 {
        base + ".backup"@
    } else {
        base + ".backup-"@ + decimal(i)
    }
}

/// Whether candidate `i` is the first that `taken` does not hold.
pub open spec fn first_free(base: Seq<char>, taken: Set<Seq<char>>, i: nat) -> bool {
    &&& !taken.contains(backup_candidate(base, i))
    &&& forall|j: nat| j < i ==> taken.contains(#[trigger] backup_candidate(base, j))
}

/// The backup path for `base` among the names `taken`: the first candidate
/// that `taken` does not hold.
pub open spec fn backup_path(base: Seq<char>, taken: Set<Seq<char>>) -> Seq<char> {
    backup_candidate(base, choose|i: nat| first_free(base, taken, i))
}

/// The backup path is the candidate that is the first free one.
pub proof fn lemma_backup_path(base: Seq<char>, taken: Set<Seq<char>>, i: nat)
    requires
        first_free(base, taken, i),
    ensures
        backup_path(base, taken) == backup_candidate(base, i),
{
    let chosen = choose|j: nat| first_free(base, taken, j);
    if i < chosen {
        assert(taken.contains(backup_candidate(base, i)));
    } else if chosen < i {
        assert(taken.contains(backup_candidate(base, chosen)));
    }
}

/// Different indices give different candidates.
pub proof fn lemma_candidates_differ(base: Seq<char>, i: nat, j: nat)
    requires
        i != j,
    ensures
        backup_candidate(base, i) != backup_candidate(base, j),
{
    reveal_strlit(".backup");
    reveal_strlit(".backup-");
    let ci = backup_candidate(base, i);
    let cj = backup_candidate(base, j);
    if i != 0 && j != 0 {
        let stem = base + ".backup-"@;
        if ci == cj {
            assert(ci.subrange(stem.len() as int, ci.len() as int) =~= decimal(i));
            assert(cj.subrange(stem.len() as int, cj.len() as int) =~= decimal(j));
            lemma_decimal_injective(i, j);
        }
    }
}

/// A finite set cannot hold more candidates than it has members: among the
/// first `taken.len() + 1` candidates, one is free.
pub proof fn lemma_candidates_bounded(base: Seq<char>, taken: Set<Seq<char>>, i: nat)
    requires
        taken.finite(),
        forall|j: nat| j < i ==> taken.contains(#[trigger] backup_candidate(base, j)),
    ensures
        i <= taken.len(),
    decreases i,
{
    if i > 0 {
        let last = backup_candidate(base, (i - 1) as nat);
        let rest = taken.remove(last);
        assert forall|j: nat| j < (i - 1) as nat implies rest.contains(
            #[trigger] backup_candidate(base, j),
        ) by {
            lemma_candidates_differ(base, j, (i - 1) as nat);
        }
        lemma_candidates_bounded(base, rest, (i - 1) as nat);
    }
}

/// The `i`-th candidate for a backup of `path`.
fn candidate(path: &str, i: usize) -> (name: String)
    ensures
        name@ == backup_candidate(path@, i as nat),
{
    let mut name = String::from_str(path);
    if i == 0 {
        name.append(".backup");
    } else {
        name.append(".backup-");
        push_decimal(&mut name, i as u64);
    }
    name
}

/// A path for a backup of `path` that `existing_names` does not hold: the
/// first free one among the candidates. The search ends within
/// `existing_names.len() + 1` candidates.
pub fn gen_backup_path(path: &str, existing_names: &StringHashSet) -> (backup: String)
    requires
        existing_names@.finite(),
    ensures
        backup@ == backup_path(path@, existing_names@),
        exists|i: nat|
            i <= existing_names@.len() && first_free(path@, existing_names@, i) && backup@
                == #[trigger] backup_candidate(path@, i),
{
    let limit = existing_names.len();
    let mut i: usize = 0;
    loop
        invariant
            existing_names@.finite(),
            limit == existing_names@.len(),
            i <= limit,
            forall|j: nat|
                j < i ==> existing_names@.contains(#[trigger] backup_candidate(path@, j)),
        decreases limit - i,
    {
        let name = candidate(path, i);
        if !existing_names.contains(name.as_str()) {
            proof {
                lemma_backup_path(path@, existing_names@, i as nat);
            }
            return name;
        }
        proof {
            lemma_candidates_bounded(path@, existing_names@, (i + 1) as nat);
        }
        i += 1;
    }
}

} // verus!
