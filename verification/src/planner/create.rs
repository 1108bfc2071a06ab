//! The creations that end a plan.

use vstd::prelude::*;
use crate::entry::{listing, Entry, Item};
use crate::fsutils::fsop::{lemma_plan_push, plan_apply, plan_of, plan_valid, FsOp, Op, Tree};
use crate::listing::{paths_unique, pos, state_of, with_content};

verus! {

/// The creations that a listing asks for: one for each entry without an
/// identifier, in the order of the listing.
pub open spec fn create_plan(l: Seq<Item>) -> Seq<Op> {
    l.filter(|e: Item| e.id is None).map_values(|e: Item| Op::Create { path: e.path })
}

/// The creations for a listing continue those for the listing without its
/// last entry.
pub proof fn lemma_create_plan_step(l: Seq<Item>)
    requires
        l.len() > 0,
    ensures
        create_plan(l) == if l.last().id is None {
            create_plan(l.drop_last()).push(Op::Create { path: l.last().path })
        } else {
            create_plan(l.drop_last())
        },
{
    reveal(Seq::filter);
}

/// The tree of the first `q` entries' new files, added to the files of
/// `l` that have content.
pub open spec fn partly_created(l: Seq<Item>, q: int) -> Tree {
    state_of(l).restrict(
        Set::new(
            |p: Seq<char>| state_of(l)[p] is Some || (pos(l).contains_key(p) && pos(l)[p] < q),
        ),
    )
}

proof fn lemma_creations(l: Seq<Item>, q: int)
    requires
        paths_unique(l),
        0 <= q <= l.len(),
    ensures
        plan_valid(with_content(state_of(l)), create_plan(l.take(q))),
        plan_apply(with_content(state_of(l)), create_plan(l.take(q))) == partly_created(l, q),
    decreases q,
{
    if q > 0 {
        lemma_creations(l, q - 1);
        let head = l.take(q);
        assert(head.drop_last() =~= l.take(q - 1));
        lemma_create_plan_step(head);
        if l[q - 1].id is None {
            lemma_plan_push(
                with_content(state_of(l)),
                create_plan(l.take(q - 1)),
                Op::Create { path: l[q - 1].path },
            );
        }
    }
}

/// A listing whose entries all have an identifier asks for no creation.
pub proof fn lemma_no_creations(l: Seq<Item>)
    requires
        forall|i: int| 0 <= i < l.len() ==> (#[trigger] l[i]).id is Some,
    ensures
        create_plan(l).len() == 0,
    decreases l.len(),
{
    if l.len() > 0 {
        lemma_create_plan_step(l);
        lemma_no_creations(l.drop_last());
    }
}

/// From the tree of the files of `l` that have content, the creations for
/// `l` can run and lead to the tree of `l`.
pub proof fn lemma_create_plan(l: Seq<Item>)
    requires
        paths_unique(l),
    ensures
        plan_valid(with_content(state_of(l)), create_plan(l)),
        plan_apply(with_content(state_of(l)), create_plan(l)) == state_of(l),
{
    lemma_creations(l, l.len() as int);
    assert(l.take(l.len() as int) =~= l);
}

/// The creations for `new_entries`: one for each entry without an
/// identifier, in the order of the listing.
pub fn create_files_ops(new_entries: &Vec<Entry>) -> (ops: Vec<FsOp>)
    ensures
        plan_of(ops@) == create_plan(listing(new_entries@)),
{
    let ghost l = listing(new_entries@);
    let mut ops: Vec<FsOp> = Vec::new();
    let mut k: usize = 0;
    while k < new_entries.len()
        invariant
            k <= new_entries.len(),
            l == listing(new_entries@),
            plan_of(ops@) == create_plan(l.take(k as int)),
        decreases new_entries.len() - k,
    {
        let entry = &new_entries[k];
        proof {
            let head = l.take(k + 1);
            assert(head.drop_last() =~= l.take(k as int));
            lemma_create_plan_step(head);
        }
        if entry.id.is_none() {
            ops.push(FsOp::CreateFile { path: entry.path.clone() });
        }
        k += 1;
    }
    assert(l.take(l.len() as int) =~= l);
    ops
}

} // verus!
