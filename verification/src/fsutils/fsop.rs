//! File operations, and what they mean on a tree of files.
//!
//! A tree is modelled as a map from each live path to the identifier of the
//! content stored there (`None` for a file that was created empty). Every
//! operation has a condition under which it may run and an effect on the
//! tree; a plan is a sequence of operations run one after the other.

use vstd::prelude::*;
use crate::error::{DetectedBy, Drift, TreeEditError};
use crate::fsutils::files::Files;

verus! {

/// One mutation of the tree.
#[derive(Debug, Clone, PartialEq, Eq)]
pub enum FsOp {
    /// Create an empty file at `path`.
    CreateFile { path: String },
    /// Move the file at `src` to `dst`.
    MoveFile { src: String, dst: String },
    /// Copy the file at `src` to `dst`.
    CopyFile { src: String, dst: String },
    /// Delete the file at `path`.
    RemoveFile { path: String },
}

/// The model of an [`FsOp`], with paths as sequences of characters.
pub enum Op {
    Create { path: Seq<char> },
    Move { src: Seq<char>, dst: Seq<char> },
    Copy { src: Seq<char>, dst: Seq<char> },
    Remove { path: Seq<char> },
}

impl View for FsOp {
    type V = Op;

    open spec fn view(&self) -> Op {
        match self {
            FsOp::CreateFile { path } => Op::Create { path: path@ },
            FsOp::MoveFile { src, dst } => Op::Move { src: src@, dst: dst@ },
            FsOp::CopyFile { src, dst } => Op::Copy { src: src@, dst: dst@ },
            FsOp::RemoveFile { path } => Op::Remove { path: path@ },
        }
    }
}

/// The model of a tree: the live paths, each with the identifier of its
/// content.
pub type Tree = Map<Seq<char>, Option<u64>>;

/// The model of a plan: the models of its operations, in order.
pub open spec fn plan_of(ops: Seq<FsOp>) -> Seq<Op> {
    Seq::new(ops.len(), |i: int| ops[i]@)
}

/// Whether `op` may run on `tree`: what it reads is there, and what it
/// writes is not.
pub open spec fn op_enabled(tree: Tree, op: Op) -> bool {
    match op {
        Op::Create { path } => !tree.contains_key(path),
        Op::Move { src, dst } => tree.contains_key(src) && !tree.contains_key(dst),
        Op::Copy { src, dst } => tree.contains_key(src) && !tree.contains_key(dst),
        Op::Remove { path } => tree.contains_key(path),
    }
}

/// The tree after `op` has run on `tree`.
pub open spec fn op_apply(tree: Tree, op: Op) -> Tree {
    match op {
        Op::Create { path } => tree.insert(path, None),
        Op::Move { src, dst } => tree.remove(src).insert(dst, tree[src]),
        Op::Copy { src, dst } => tree.insert(dst, tree[src]),
        Op::Remove { path } => tree.remove(path),
    }
}

/// The tree after the operations of `plan` have run on `tree`, in order.
pub open spec fn plan_apply(tree: Tree, plan: Seq<Op>) -> Tree
    decreases plan.len(),
{
    if plan.len() == 0 {
        tree
    } else {
        op_apply(plan_apply(tree, plan.drop_last()), plan.last())
    }
}

/// Whether every operation of `plan` may run when its turn comes, starting
/// from `tree`.
pub open spec fn plan_valid(tree: Tree, plan: Seq<Op>) -> bool
    decreases plan.len(),
{
    plan.len() == 0 || (plan_valid(tree, plan.drop_last()) && op_enabled(
        plan_apply(tree, plan.drop_last()),
        plan.last(),
    ))
}

/// Appending one operation to a plan runs it on the tree that the plan
/// leaves.
pub proof fn lemma_plan_push(tree: Tree, plan: Seq<Op>, op: Op)
    ensures
        plan_apply(tree, plan.push(op)) == op_apply(plan_apply(tree, plan), op),
        plan_valid(tree, plan.push(op)) == (plan_valid(tree, plan) && op_enabled(
            plan_apply(tree, plan),
            op,
        )),
{
    assert(plan.push(op).drop_last() =~= plan);
}

/// Running two plans one after the other is running their concatenation.
pub proof fn lemma_plan_concat(tree: Tree, first: Seq<Op>, second: Seq<Op>)
    ensures
        plan_apply(tree, first + second) == plan_apply(plan_apply(tree, first), second),
        plan_valid(tree, first + second) == (plan_valid(tree, first) && plan_valid(
            plan_apply(tree, first),
            second,
        )),
    decreases second.len(),
{
    if second.len() > 0 {
        lemma_plan_concat(tree, first, second.drop_last());
        assert((first + second).drop_last() =~= first + second.drop_last());
    }
}

/// Every prefix of a valid plan is valid.
pub proof fn lemma_plan_prefix_valid(tree: Tree, plan: Seq<Op>, n: int)
    requires
        plan_valid(tree, plan),
        0 <= n <= plan.len(),
    ensures
        plan_valid(tree, plan.take(n)),
    decreases plan.len(),
{
    if n == plan.len() {
        assert(plan.take(n) =~= plan);
    } else {
        lemma_plan_prefix_valid(tree, plan.drop_last(), n);
        assert(plan.drop_last().take(n) =~= plan.take(n));
    }
}

/// In a valid plan, every operation can run on the tree that the
/// operations before it leave: what it reads is there, and what it writes
/// is not.
pub proof fn lemma_step_enabled(tree: Tree, plan: Seq<Op>, n: int)
    requires
        plan_valid(tree, plan),
        0 <= n < plan.len(),
    ensures
        plan_valid(tree, plan.take(n)),
        op_enabled(plan_apply(tree, plan.take(n)), plan[n]),
{
    lemma_plan_prefix_valid(tree, plan, n + 1);
    assert(plan.take(n + 1).drop_last() =~= plan.take(n));
}

/// A valid plan invents no content: whatever identifier a path holds after
/// the plan was held by some path before it, and has come from there
/// through copies and moves.
pub proof fn lemma_content_descends(tree: Tree, plan: Seq<Op>, path: Seq<char>, id: u64)
    requires
        plan_valid(tree, plan),
        plan_apply(tree, plan).contains_key(path),
        plan_apply(tree, plan)[path] == Some(id),
    ensures
        exists|origin: Seq<char>| #[trigger] tree.contains_key(origin) && tree[origin] == Some(id),
    decreases plan.len(),
{
    if plan.len() > 0 {
        match plan.last() {
            Op::Create { path: made } => {
                lemma_content_descends(tree, plan.drop_last(), path, id);
            },
            Op::Move { src, dst } => {
                if path == dst {
                    lemma_content_descends(tree, plan.drop_last(), src, id);
                } else {
                    lemma_content_descends(tree, plan.drop_last(), path, id);
                }
            },
            Op::Copy { src, dst } => {
                if path == dst {
                    lemma_content_descends(tree, plan.drop_last(), src, id);
                } else {
                    lemma_content_descends(tree, plan.drop_last(), path, id);
                }
            },
            Op::Remove { path: gone } => {
                lemma_content_descends(tree, plan.drop_last(), path, id);
            },
        }
    }
}

/// What is wrong, if anything, when `op` is about to run and the path it
/// reads exists or not, and the path it writes exists or not: a missing
/// source is found before an occupied target. A creation reads nothing and
/// a removal writes nothing.
pub open spec fn drift(op: Op, source_exists: bool, target_exists: bool) -> Option<Drift> {
    match op {
        Op::Create { path } => if target_exists {
            Some(Drift::Occupied(path))
        } else {
            None
        },
        Op::Move { src, dst } => if !source_exists {
            Some(Drift::Missing(src))
        } else if target_exists {
            Some(Drift::Occupied(dst))
        } else {
            None
        },
        Op::Copy { src, dst } => if !source_exists {
            Some(Drift::Missing(src))
        } else if target_exists {
            Some(Drift::Occupied(dst))
        } else {
            None
        },
        Op::Remove { path } => if !source_exists {
            Some(Drift::Missing(path))
        } else {
            None
        },
    }
}

/// What is wrong, if anything, when `op` is about to run on `tree`.
pub open spec fn tree_drift(tree: Tree, op: Op) -> Option<Drift> {
    match op {
        Op::Create { path } => drift(op, false, tree.contains_key(path)),
        Op::Move { src, dst } => drift(op, tree.contains_key(src), tree.contains_key(dst)),
        Op::Copy { src, dst } => drift(op, tree.contains_key(src), tree.contains_key(dst)),
        Op::Remove { path } => drift(op, tree.contains_key(path), false),
    }
}

/// An operation may run exactly where nothing is wrong.
pub proof fn lemma_enabled_iff_no_drift(tree: Tree, op: Op)
    ensures
        op_enabled(tree, op) <==> tree_drift(tree, op) is None,
{
}

/// Decides, from what was found at the paths of `op`, whether `op` can run
/// or the tree has changed, and how that shows.
pub fn detect_change(op: &FsOp, source_exists: bool, target_exists: bool) -> (found: Option<
    DetectedBy,
>)
    ensures
        found is None <==> drift(op@, source_exists, target_exists) is None,
        found matches Some(detected) ==> Some(detected@) == drift(
            op@,
            source_exists,
            target_exists,
        ),
{
    match op {
        FsOp::CreateFile { path } => {
            if target_exists {
                Some(DetectedBy::FileExists(path.clone()))
            } else {
                None
            }
        },
        FsOp::MoveFile { src, dst } => {
            if !source_exists {
                Some(DetectedBy::FileNotFound(src.clone()))
            } else if target_exists {
                Some(DetectedBy::FileExists(dst.clone()))
            } else {
                None
            }
        },
        FsOp::CopyFile { src, dst } => {
            if !source_exists {
                Some(DetectedBy::FileNotFound(src.clone()))
            } else if target_exists {
                Some(DetectedBy::FileExists(dst.clone()))
            } else {
                None
            }
        },
        FsOp::RemoveFile { path } => {
            if !source_exists {
                Some(DetectedBy::FileNotFound(path.clone()))
            } else {
                None
            }
        },
    }
}

/// Runs `op` on `files`. Where the operation cannot run, because what it
/// reads is missing or what it writes exists, the tree is left as it was
/// and the error says which of the two was found.
pub fn exec(op: &FsOp, files: &mut Files) -> (result: Result<(), TreeEditError>)
    requires
        old(files).wf(),
    ensures
        final(files).wf(),
        result is Ok <==> op_enabled(old(files)@, op@),
        result is Ok ==> final(files)@ == op_apply(old(files)@, op@),
        result is Err ==> final(files)@ == old(files)@,
        result matches Err(error) ==> (error matches TreeEditError::FsChanged(detected) && Some(
            detected@,
        ) == tree_drift(old(files)@, op@)),
{
    let (source_exists, target_exists) = match op {
        FsOp::CreateFile { path } => (false, files.contains(path)),
        FsOp::MoveFile { src, dst } => (files.contains(src), files.contains(dst)),
        FsOp::CopyFile { src, dst } => (files.contains(src), files.contains(dst)),
        FsOp::RemoveFile { path } => (files.contains(path), false),
    };
    if let Some(detected) = detect_change(op, source_exists, target_exists) {
        return Err(TreeEditError::FsChanged(detected));
    }
    match op {
        FsOp::CreateFile { path } => {
            files.put(path.clone(), None);
        },
        FsOp::MoveFile { src, dst } => {
            let content = files.take(src);
            files.put(dst.clone(), content);
        },
        FsOp::CopyFile { src, dst } => {
            let content = files.get(src).unwrap();
            files.put(dst.clone(), content);
        },
        FsOp::RemoveFile { path } => {
            let _ = files.take(path);
        },
    }
    Ok(())
}

/// Runs the operations of `ops` on `files`, in order, and stops at the
/// first that cannot run: what ran before it stays done, and the error is
/// that operation's.
pub fn exec_all(ops: &Vec<FsOp>, files: &mut Files) -> (result: Result<(), TreeEditError>)
    requires
        old(files).wf(),
    ensures
        final(files).wf(),
        result is Ok <==> plan_valid(old(files)@, plan_of(ops@)),
        result is Ok ==> final(files)@ == plan_apply(old(files)@, plan_of(ops@)),
        result matches Err(error) ==> exists|n: int|
            {
                &&& 0 <= n < ops.len()
                &&& plan_valid(old(files)@, #[trigger] plan_of(ops@).take(n))
                &&& final(files)@ == plan_apply(old(files)@, plan_of(ops@).take(n))
                &&& error matches TreeEditError::FsChanged(detected) && Some(detected@)
                    == tree_drift(final(files)@, ops[n]@)
            },
{
    let ghost plan = plan_of(ops@);
    let mut n: usize = 0;
    while n < ops.len()
        invariant
            n <= ops.len(),
            plan == plan_of(ops@),
            files.wf(),
            plan_valid(old(files)@, plan.take(n as int)),
            files@ == plan_apply(old(files)@, plan.take(n as int)),
        decreases ops.len() - n,
    {
        proof {
            assert(plan.take(n + 1) =~= plan.take(n as int).push(ops[n as int]@));
            lemma_plan_push(old(files)@, plan.take(n as int), ops[n as int]@);
        }
        match exec(&ops[n], files) {
            Ok(_) => {},
            Err(error) => {
                proof {
                    if plan_valid(old(files)@, plan) {
                        lemma_plan_prefix_valid(old(files)@, plan, n + 1);
                    }
                }
                return Err(error);
            },
        }
        n += 1;
    }
    proof {
        assert(plan.take(n as int) =~= plan);
    }
    Ok(())
}

} // verus!
