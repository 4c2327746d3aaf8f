//! The head and tree of a stack, and the files of all stacks together.

use crate::error::Error;
use crate::merge::{overlaid_files, overlay};
use crate::odb::{ObjectDatabase, Objects};
use crate::oid::Oid;
use crate::repository::{Workspace, WorktreeWritePermission};
use crate::stack::{BranchHeadAndTree, Stack, VirtualBranchesState};
use crate::tree::Tree;
use vstd::prelude::*;

verus! {

/// The head and tree that a stack gets when `new_head` becomes its newest
/// commit: the commit itself, and the tree of that commit. Where the commit
/// is conflicted this is the tree with the marked text.
pub fn compute_updated_branch_head(db: &ObjectDatabase, new_head: Oid) -> (r: Result<
    BranchHeadAndTree,
    Error,
>)
    ensures
        match r {
            Ok(update) => update.consistent(db@) && update.head == new_head,
            Err(e) => !db@.has_commit(new_head) && e == Error::NotFound,
        },
{
    match db.find_commit(new_head) {
        Ok(commit) => Ok(BranchHeadAndTree { head: new_head, tree: commit.tree }),
        Err(e) => Err(e),
    }
}

/// The heads of a list of stacks, in the order of the stacks.
pub open spec fn stack_heads(stacks: Seq<Stack>) -> Seq<Oid> {
    Seq::new(stacks.len(), |i: int| stacks[i].head)
}

/// The trees of a list of stacks, in the order of the stacks.
pub open spec fn stack_trees(stacks: Seq<Stack>) -> Seq<Oid> {
    Seq::new(stacks.len(), |i: int| stacks[i].tree)
}

/// The files of a list of trees laid over one another in their order: where
/// two trees have a path, the later one wins.
pub open spec fn overlay_of(g: Objects, trees: Seq<Oid>) -> Map<Seq<u8>, Seq<u8>>
    decreases trees.len(),
{
    if trees.len() == 0 {
        Map::empty()
    } else {
        overlaid_files(overlay_of(g, trees.drop_last()), g.files(trees.last()))
    }
}

/// The files of all stacks together: the trees of the stacks laid over one
/// another in the order of the stacks.
pub fn merged_branch_trees(db: &ObjectDatabase, state: &VirtualBranchesState) -> (r: Tree)
    requires
        db.wf(),
        state.consistent(db@),
    ensures
        r.wf(),
        r@ == overlay_of(db@, stack_trees(state.stacks@)),
{
    let ghost trees = stack_trees(state.stacks@);
    let mut out = Tree::new();
    let mut i: usize = 0;
    while i < state.stacks.len()
        invariant
            db.wf(),
            state.consistent(db@),
            trees == stack_trees(state.stacks@),
            i <= state.stacks@.len(),
            out.wf(),
            out@ == overlay_of(db@, trees.take(i as int)),
        decreases state.stacks@.len() - i,
    {
        let stack = &state.stacks[i];
        assert(stack.head_and_tree().consistent(db@));
        assert(db@.has_tree(db@.commits[stack.head.index as int].tree));
        let upper = &db.trees[stack.tree.index];
        out = overlay(&out, upper);
        proof {
            assert(trees.take(i + 1).drop_last() =~= trees.take(i as int));
            assert(trees.take(i + 1).last() == stack.tree);
        }
        i += 1;
    }
    assert(trees.take(trees.len() as int) =~= trees);
    out
}

/// Checks out the files of all stacks together as the working directory.
pub fn checkout_branch_trees(ctx: &mut Workspace, _perm: &mut WorktreeWritePermission)
    requires
        old(ctx).wf(),
    ensures
        final(ctx).wf(),
        final(ctx).repo.worktree@ == overlay_of(
            old(ctx).repo.objects@,
            stack_trees(old(ctx).state.stacks@),
        ),
        final(ctx).state == old(ctx).state,
        final(ctx).repo.objects == old(ctx).repo.objects,
        final(ctx).repo.references == old(ctx).repo.references,
        final(ctx).repo.conflicts == old(ctx).repo.conflicts,
        final(ctx).repo.head == old(ctx).repo.head,
{
    let files = merged_branch_trees(&ctx.repo.objects, &ctx.state);
    ctx.repo.worktree = files;
}

} // verus!
