//! The workspace commit: one commit that merges the heads of all stacks.

use crate::branch_trees::{merged_branch_trees, overlay_of, stack_heads, stack_trees};
use crate::bytes::bytes_to_vec;
use crate::commit::{Commit, CommitView, HeaderView};
use crate::odb::{lemma_with_tree, lemma_with_within, Objects};
use crate::oid::Oid;
use crate::repository::{Workspace, WorktreeWritePermission};
use crate::stack::{lemma_consistent_later, Stack};
use vstd::prelude::*;
use vstd::string::StringSliceAdditionalSpecFns;

verus! {

/// The message of every workspace commit.
pub open spec fn workspace_message() -> Seq<u8> {
    "Workspace commit".spec_bytes()
}

/// The workspace commit of a list of stacks as content: its parents are the
/// heads of the stacks in their order, and its tree is `tree`.
pub open spec fn workspace_content(stacks: Seq<Stack>, tree: Oid) -> CommitView {
    CommitView {
        parents: stack_heads(stacks),
        tree,
        message: workspace_message(),
        headers: Seq::<HeaderView>::empty(),
    }
}

/// The database after the workspace commit of the stacks was stored, and that
/// commit. Its tree holds the files of all stacks together.
pub open spec fn with_workspace_commit(g: Objects, stacks: Seq<Stack>) -> (Objects, Oid) {
    let (stored, tree) = g.with_tree(overlay_of(g, stack_trees(stacks)));
    stored.with_commit(workspace_content(stacks, tree))
}

/// Builds the workspace commit of the current stacks and checks it out: the
/// commit becomes the head of the repository and its files become the working
/// directory. The stacks themselves do not change. The caller holds the
/// permission to write to the working directory.
pub fn update_workspace_commit(ctx: &mut Workspace, _perm: &mut WorktreeWritePermission) -> (id:
    Oid)
    requires
        old(ctx).wf(),
    ensures
        final(ctx).wf(),
        (final(ctx).repo.objects@, id) == with_workspace_commit(
            old(ctx).repo.objects@,
            old(ctx).state.stacks@,
        ),
        old(ctx).repo.objects@.within(final(ctx).repo.objects@),
        final(ctx).repo.head == Some(id),
        final(ctx).repo.worktree@ == overlay_of(
            old(ctx).repo.objects@,
            stack_trees(old(ctx).state.stacks@),
        ),
        final(ctx).state == old(ctx).state,
        final(ctx).repo.references == old(ctx).repo.references,
        final(ctx).repo.conflicts == old(ctx).repo.conflicts,
{
    let ghost g = ctx.repo.objects@;
    let ghost stacks = ctx.state.stacks@;
    let files = merged_branch_trees(&ctx.repo.objects, &ctx.state);
    let checkout = files.copy();
    let mut parents: Vec<Oid> = Vec::new();
    let mut i: usize = 0;
    while i < ctx.state.stacks.len()
        invariant
            *ctx == *old(ctx),
            stacks == ctx.state.stacks@,
            i <= stacks.len(),
            parents@ == stack_heads(stacks).take(i as int),
        decreases stacks.len() - i,
    {
        parents.push(ctx.state.stacks[i].head);
        assert(parents@ =~= stack_heads(stacks).take(i + 1));
        i += 1;
    }
    assert(stack_heads(stacks).take(stacks.len() as int) =~= stack_heads(stacks));
    let tree = ctx.repo.objects.insert_tree(files);
    let ghost stored = ctx.repo.objects@;
    let commit = Commit {
        parents,
        tree,
        message: bytes_to_vec("Workspace commit".as_bytes()),
        headers: Vec::new(),
    };
    proof {
        let content = workspace_content(stacks, tree);
        assert(commit@.headers =~= Seq::<HeaderView>::empty());
        assert(commit@ == content);
        lemma_with_tree(g, overlay_of(g, stack_trees(stacks)));
        lemma_with_within(g, overlay_of(g, stack_trees(stacks)), content);
        lemma_with_within(stored, overlay_of(g, stack_trees(stacks)), content);
        assert forall|k: int| 0 <= k < content.parents.len() implies stored.has_commit(
            #[trigger] content.parents[k],
        ) by {
            assert(old(ctx).state.stacks@[k].head_and_tree().consistent(g));
        }
        assert(stored.admits(content));
    }
    let id = match ctx.repo.objects.insert_commit(commit) {
        Ok(id) => id,
        Err(_) => {
            assert(false);
            Oid { index: 0 }
        },
    };
    ctx.repo.head = Some(id);
    ctx.repo.worktree = checkout;
    proof {
        lemma_consistent_later(ctx.state, g, ctx.repo.objects@);
    }
    id
}

} // verus!
