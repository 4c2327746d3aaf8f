//! Rewording a commit of a stack.

use crate::branch_trees::{
    checkout_branch_trees, compute_updated_branch_head, overlay_of, stack_trees,
};
use crate::bytes::bytes_to_vec;
use crate::commit::{copy_headers, Commit, CommitView};
use crate::error::Error;
use crate::history::{
    lemma_ancestor_index, lemma_ancestor_stable, lemma_ancestor_through_parent,
    lemma_ancestor_transitive, lemma_lineage_stable, lemma_log_members, lemma_log_split,
};
use crate::integration::{update_workspace_commit, with_workspace_commit, workspace_content};
use crate::move_commits::contains_commit;
use crate::odb::{lemma_with_commit, lemma_with_within, lemma_within_transitive, Objects};
use crate::oid::Oid;
use crate::position::{lemma_position_is, lemma_position_of, position_of};
use crate::rebase::{
    cherry_rebase_group, lemma_rebased, lemma_rebased_ancestors, lemma_rebased_lineage,
    lemma_rebased_prefix_within, lemma_rebased_within, lemma_replayed_differs,
    lemma_replayed_id_is_head, lemma_replayed_ids, replayed_ids, restates,
};
use crate::repository::{upstream_commit, Workspace, WorktreeWritePermission};
use crate::stack::{
    head_and_tree_of, lemma_consistent_later, lemma_set_head_consistent, Stack, StackId,
};
use vstd::prelude::*;
use vstd::string::StringSliceAdditionalSpecFns;

verus! {

/// A commit with another message and everything else as it is.
pub open spec fn with_message(c: CommitView, message: Seq<u8>) -> CommitView {
    CommitView { message, ..c }
}

/// The commits of a stack that were pushed: those of its remote tracking
/// reference that the target does not have.
pub open spec fn pushed_commits(ctx: Workspace, stack: Stack, until: Oid) -> Seq<Oid> {
    match upstream_commit(ctx, stack) {
        Some(u) => ctx.repo.objects@.log(u, until),
        None => seq![],
    }
}

/// Why a commit cannot be reworded, if it cannot. Checked in this order: the
/// new message is empty; the working directory holds unresolved conflicts;
/// the default target, the stack or the target's commit does not resolve; the
/// commit is not among the commits of the stack; the commit was pushed and
/// the stack forbids rewriting.
pub open spec fn reword_failure(
    ctx: Workspace,
    stack_id: StackId,
    commit_id: Oid,
    message: Seq<char>,
) -> Option<Error> {
    let g = ctx.repo.objects@;
    if message.len() == 0 {
        Some(Error::EmptyCommitMessage)
    } else if ctx.repo.conflicts@ != Set::<Seq<u8>>::empty() {
        Some(Error::UnresolvedConflicts)
    } else if ctx.state.default_target is None || !ctx.state.has(stack_id) || !g.has_commit(
        ctx.state.default_target.unwrap().sha,
    ) {
        Some(Error::NotFound)
    } else {
        let stack = ctx.state.stack(stack_id);
        let until = ctx.state.default_target.unwrap().sha;
        if !g.log(stack.head, until).contains(commit_id) {
            Some(Error::NotFound)
        } else if pushed_commits(ctx, stack, until).contains(commit_id) && !stack.allow_rebasing {
            Some(Error::ForcePushRequiredButDisallowed)
        } else {
            None
        }
    }
}

/// What rewording a commit leaves behind.
pub struct RewordOutcome {
    /// The object database.
    pub objects: Objects,
    /// The stacks.
    pub stacks: Seq<Stack>,
    /// The reworded commit.
    pub commit: Oid,
    /// The new head of the stack.
    pub head: Oid,
    /// The workspace commit.
    pub workspace: Oid,
    /// The files of the working directory.
    pub worktree: Map<Seq<u8>, Seq<u8>>,
}

/// The commits of the stack above `commit_id`, newest first.
pub open spec fn commits_above(ctx: Workspace, stack_id: StackId, commit_id: Oid) -> Seq<Oid> {
    let list = ctx.repo.objects@.log(
        ctx.state.stack(stack_id).head,
        ctx.state.default_target.unwrap().sha,
    );
    list.take(position_of(list, commit_id))
}

/// The outcome of giving the commit `commit_id` of the stack `stack_id` the
/// message `message`.
///
/// A commit is stored that says what `commit_id` said, but for the message.
/// The commits of the stack above it are replayed onto it, oldest first, and
/// the last of them is the new head of the stack. Then the workspace commit is
/// built over the new heads.
pub open spec fn reworded(
    ctx: Workspace,
    stack_id: StackId,
    commit_id: Oid,
    message: Seq<u8>,
) -> RewordOutcome {
    let g = ctx.repo.objects@;
    let at = ctx.state.index_of(stack_id);
    let above = commits_above(ctx, stack_id, commit_id);
    let (g1, commit) = g.with_commit(with_message(g.commit(commit_id), message));
    let (g2, head) = g1.rebased(commit, above.reverse());
    let stacks = ctx.state.stacks@.update(
        at,
        ctx.state.stacks@[at].with_head(head_and_tree_of(g2, head)),
    );
    let (g3, workspace) = with_workspace_commit(g2, stacks);
    RewordOutcome {
        objects: g3,
        stacks,
        commit,
        head,
        workspace,
        worktree: overlay_of(g2, stack_trees(stacks)),
    }
}

/// What rewording a commit promises of its stack.
///
/// Before, the lineage of the head was the commits above the commit, the
/// commit, and the commits below it. After, it is as many commits above, then
/// the reworded commit, then the same commits below: what is below keeps its
/// identity. The reworded commit says what the commit said, but for the
/// message: it has the same parents, tree and header fields, so the same
/// change identity. Each commit above says what it said before, under the
/// same change identity. Where the message is a new one, the commit and every
/// commit above it get another identity, and no commit that had the commit in
/// its history is in the history of the new head: where the commit was
/// pushed, the stack now requires force.
pub open spec fn reworded_as_promised(
    ctx: Workspace,
    stack_id: StackId,
    commit_id: Oid,
    message: Seq<u8>,
) -> bool {
    let m = reworded(ctx, stack_id, commit_id, message);
    let g = ctx.repo.objects@;
    let above = commits_above(ctx, stack_id, commit_id);
    let below = g.lineage(commit_id).skip(1);
    let lineage = m.objects.lineage(m.head);
    &&& g.within(m.objects)
    &&& m.stacks[ctx.state.index_of(stack_id)].head == m.head
    &&& g.lineage(ctx.state.stack(stack_id).head) == above + seq![commit_id] + below
    &&& lineage.len() == above.len() + 1 + below.len()
    &&& lineage.skip(above.len() as int) == seq![m.commit] + below
    &&& m.objects.commit(m.commit) == with_message(g.commit(commit_id), message)
    &&& forall|i: int|
        0 <= i < above.len() ==> restates(
            m.objects.commit(#[trigger] lineage[i]),
            g.commit(above[i]),
        )
    &&& message != g.commit(commit_id).message ==> m.commit != commit_id && forall|i: int|
        0 <= i < above.len() ==> #[trigger] lineage[i] != above[i]
    &&& message != g.commit(commit_id).message ==> forall|pushed: Oid|
        g.has_commit(pushed) && #[trigger] g.is_ancestor(commit_id, pushed)
            ==> !m.objects.is_ancestor(pushed, m.head)
}

/// Rewording a commit keeps what [`reworded_as_promised`] says.
pub proof fn lemma_reworded_as_promised(
    ctx: Workspace,
    stack_id: StackId,
    commit_id: Oid,
    message: &str,
)
    requires
        ctx.wf(),
        reword_failure(ctx, stack_id, commit_id, message@) is None,
        reworded(ctx, stack_id, commit_id, message.spec_bytes()).objects.fits(),
    ensures
        reworded_as_promised(ctx, stack_id, commit_id, message.spec_bytes()),
{
    let text = message.spec_bytes();
    let m = reworded(ctx, stack_id, commit_id, text);
    let g = ctx.repo.objects@;
    let at = ctx.state.index_of(stack_id);
    let stack = ctx.state.stacks@[at];
    let until = ctx.state.default_target.unwrap().sha;
    let list = g.log(stack.head, until);
    let k = position_of(list, commit_id);
    let above = list.take(k);
    let ids = above.reverse();
    let content = with_message(g.commit(commit_id), text);
    let (g1, c1) = g.with_commit(content);
    let (g2, h) = g1.rebased(c1, ids);
    let stacks = ctx.state.stacks@.update(at, stack.with_head(head_and_tree_of(g2, h)));
    let tree_files = overlay_of(g2, stack_trees(stacks));
    let (g2t, tree) = g2.with_tree(tree_files);
    let g3 = m.objects;
    let below = g.lineage(commit_id).skip(1);

    lemma_position_of(list, commit_id);
    assert(0 <= k < list.len() && list[k] == commit_id) by {
        let i = choose|i: int| 0 <= i < list.len() && list[i] == commit_id;
        if k >= list.len() {
            assert(list[i] != commit_id);
        }
    }
    assert(stack.head_and_tree().consistent(g));
    lemma_log_members(g, stack.head, until, k);

    // every object stays in place
    lemma_with_within(g, tree_files, content);
    lemma_rebased_within(g1, c1, ids);
    lemma_with_within(g2, tree_files, workspace_content(stacks, tree));
    lemma_with_within(g2t, tree_files, workspace_content(stacks, tree));
    lemma_within_transitive(g2, g2t, g3);
    lemma_within_transitive(g1, g2, g3);
    lemma_within_transitive(g, g1, g3);

    // the reworded commit
    assert(g.admits(content)) by {
        assert(g.has_tree(g.commits[commit_id.index as int].tree));
        assert forall|j: int| 0 <= j < content.parents.len() implies g.has_commit(
            #[trigger] content.parents[j],
        ) by {
            assert(g.commits[commit_id.index as int].parents[j].index < commit_id.index);
        }
    }
    lemma_with_commit(g, content);
    assert(g3.commit(c1) == g1.commit(c1));

    // the commits above it
    assert forall|j: int| 0 <= j < ids.len() implies g1.has_commit(#[trigger] ids[j]) by {
        lemma_log_members(g, stack.head, until, k - 1 - j);
    }
    lemma_rebased(g1, c1, ids);
    lemma_rebased_lineage(g1, c1, ids);
    lemma_lineage_stable(g2, g3, h);
    let new_above = replayed_ids(g1, c1, ids);
    assert(g3.lineage(h) == new_above + g1.lineage(c1));

    // what is below
    lemma_log_split(g, stack.head, until, k);
    assert(g.lineage(stack.head) == above + g.lineage(commit_id));
    if g.has_first_parent(commit_id) {
        let p = g.first_parent(commit_id);
        assert(g1.commit(c1).parents[0] == p);
        assert(g1.commits[c1.index as int].parents[0].index < c1.index);
        assert(g1.has_first_parent(c1));
        lemma_lineage_stable(g, g1, p);
        assert(g.lineage(commit_id) =~= seq![commit_id] + g.lineage(p));
        assert(below =~= g.lineage(p));
        assert(g1.lineage(c1) =~= seq![c1] + below);
    } else {
        assert(g.commit(commit_id).parents.len() == 0) by {
            if g.commit(commit_id).parents.len() > 0 {
                assert(g.commits[commit_id.index as int].parents[0].index < commit_id.index);
            }
        }
        assert(!g1.has_first_parent(c1));
        assert(g.lineage(commit_id) =~= seq![commit_id]);
        assert(below =~= Seq::<Oid>::empty());
        assert(g1.lineage(c1) =~= seq![c1] + below);
    }
    let lineage = g3.lineage(h);
    assert(g.lineage(stack.head) =~= above + seq![commit_id] + below);
    assert(lineage =~= new_above + (seq![c1] + below));
    assert(lineage.skip(above.len() as int) =~= seq![c1] + below);
    assert forall|i: int| 0 <= i < above.len() implies restates(
        g3.commit(#[trigger] lineage[i]),
        g.commit(above[i]),
    ) by {
        lemma_replayed_ids(g1, c1, ids, i);
        assert(lineage[i] == new_above[i]);
        assert(ids[ids.len() - 1 - i] == above[i]);
        assert(g3.commit(new_above[i]) == g2.commit(new_above[i]));
        lemma_log_members(g, stack.head, until, i);
        assert(g1.commit(above[i]) == g.commit(above[i]));
    }
    if text != g.commit(commit_id).message {
        assert(c1 != commit_id) by {
            if c1 == commit_id {
                assert(g1.commit(commit_id) == g.commit(commit_id));
            }
        }
        assert forall|j: int|
            0 <= j < ids.len() implies g1.commit(#[trigger] ids[j]).parents.len() > 0
            && g1.commit(ids[j]).parents[0] == if j == 0 {
            commit_id
        } else {
            ids[j - 1]
        } by {
            lemma_log_split(g, stack.head, until, k - 1 - j);
            assert(ids[j] == list[k - 1 - j]);
            assert(g1.commit(ids[j]) == g.commit(ids[j]));
            if j > 0 {
                assert(ids[j - 1] == list[k - j]);
            }
        }
        assert forall|i: int| 0 <= i < above.len() implies #[trigger] lineage[i] != above[i] by {
            lemma_replayed_differs(g1, c1, ids, commit_id, above.len() - 1 - i);
            assert(lineage[i] == new_above[i]);
            assert(ids[above.len() - 1 - i] == above[i]);
        }
        assert forall|pushed: Oid|
            g.has_commit(pushed) && #[trigger] g.is_ancestor(commit_id, pushed)
            implies !g3.is_ancestor(pushed, h) by {
            lemma_reworded_requires_force(ctx, stack_id, commit_id, message, pushed);
        }
    }
}

/// A commit is no ancestor of what it becomes when it is given a new
/// message: the two have the same parents, and a commit is not in the history
/// of its own parents.
proof fn lemma_not_behind_itself(g: Objects, c: Oid, message: Seq<u8>)
    requires
        g.wf(),
        g.has_commit(c),
        message != g.commit(c).message,
        g.with_commit(with_message(g.commit(c), message)).0.fits(),
    ensures
        !g.with_commit(with_message(g.commit(c), message)).0.is_ancestor(
            c,
            g.with_commit(with_message(g.commit(c), message)).1,
        ),
{
    let content = with_message(g.commit(c), message);
    let (g1, c1) = g.with_commit(content);
    assert(g.admits(content)) by {
        assert(g.has_tree(g.commits[c.index as int].tree));
        assert forall|j: int| 0 <= j < content.parents.len() implies g.has_commit(
            #[trigger] content.parents[j],
        ) by {
            assert(g.commits[c.index as int].parents[j].index < c.index);
        }
    }
    lemma_with_commit(g, content);
    assert(g1.commit(c) == g.commit(c));
    if g1.is_ancestor(c, c1) {
        lemma_ancestor_through_parent(g1, c, c1);
        let q = choose|q: Oid|
            #![trigger g1.is_parent(q, c1)]
            g1.is_parent(q, c1) && g1.is_ancestor(c, q);
        let at = choose|at: int|
            0 <= at < g1.commit(c1).parents.len() && g1.commit(c1).parents[at] == q;
        assert(g.commits[c.index as int].parents[at].index < c.index);
        lemma_ancestor_index(g1, c, q);
    }
}

/// Rewording a commit takes the commit out of the history of its stack: a
/// commit that had it in its history is not in the history of the new head.
/// So where the commit was pushed, what was pushed is not in the history of
/// the new head, and the stack requires force to be pushed again.
pub proof fn lemma_reworded_requires_force(
    ctx: Workspace,
    stack_id: StackId,
    commit_id: Oid,
    message: &str,
    upstream: Oid,
)
    requires
        ctx.wf(),
        reword_failure(ctx, stack_id, commit_id, message@) is None,
        reworded(ctx, stack_id, commit_id, message.spec_bytes()).objects.fits(),
        message.spec_bytes() != ctx.repo.objects@.commit(commit_id).message,
        ctx.repo.objects@.has_commit(upstream),
        ctx.repo.objects@.is_ancestor(commit_id, upstream),
    ensures
        !reworded(ctx, stack_id, commit_id, message.spec_bytes()).objects.is_ancestor(
            upstream,
            reworded(ctx, stack_id, commit_id, message.spec_bytes()).head,
        ),
{
    let text = message.spec_bytes();
    let m = reworded(ctx, stack_id, commit_id, text);
    let g = ctx.repo.objects@;
    let at = ctx.state.index_of(stack_id);
    let stack = ctx.state.stacks@[at];
    let until = ctx.state.default_target.unwrap().sha;
    let list = g.log(stack.head, until);
    let k = position_of(list, commit_id);
    let above = list.take(k);
    let ids = above.reverse();
    let content = with_message(g.commit(commit_id), text);
    let (g1, c1) = g.with_commit(content);
    let (g2, h) = g1.rebased(c1, ids);
    let stacks = ctx.state.stacks@.update(at, stack.with_head(head_and_tree_of(g2, h)));
    let tree_files = overlay_of(g2, stack_trees(stacks));
    let (g2t, tree) = g2.with_tree(tree_files);
    let g3 = m.objects;
    let n = ids.len() as int;

    lemma_position_of(list, commit_id);
    assert(0 <= k < list.len() && list[k] == commit_id) by {
        let i = choose|i: int| 0 <= i < list.len() && list[i] == commit_id;
        if k >= list.len() {
            assert(list[i] != commit_id);
        }
    }
    assert(stack.head_and_tree().consistent(g));
    lemma_log_members(g, stack.head, until, k);

    lemma_with_within(g, tree_files, content);
    lemma_rebased_within(g1, c1, ids);
    lemma_with_within(g2, tree_files, workspace_content(stacks, tree));
    lemma_with_within(g2t, tree_files, workspace_content(stacks, tree));
    lemma_within_transitive(g2, g2t, g3);
    lemma_within_transitive(g1, g2, g3);

    assert(g.admits(content)) by {
        assert(g.has_tree(g.commits[commit_id.index as int].tree));
        assert forall|j: int| 0 <= j < content.parents.len() implies g.has_commit(
            #[trigger] content.parents[j],
        ) by {
            assert(g.commits[commit_id.index as int].parents[j].index < commit_id.index);
        }
    }
    lemma_with_commit(g, content);
    lemma_not_behind_itself(g, commit_id, text);
    assert forall|j: int| 0 <= j < ids.len() implies g1.has_commit(#[trigger] ids[j]) by {
        lemma_log_members(g, stack.head, until, k - 1 - j);
    }
    lemma_rebased(g1, c1, ids);

    if g3.is_ancestor(upstream, h) {
        lemma_ancestor_stable(g2, g3, upstream, h);
        lemma_rebased_ancestors(g1, c1, ids, upstream);
        lemma_ancestor_stable(g, g1, commit_id, upstream);
        if g1.is_ancestor(upstream, c1) {
            lemma_ancestor_transitive(g1, commit_id, upstream, c1);
        } else {
            let made = replayed_ids(g1, c1, ids);
            let i = choose|i: int| 0 <= i < made.len() && made[i] == upstream;
            let first = ids.take(n - i);
            let (gp, r) = g1.rebased(c1, first);
            lemma_replayed_id_is_head(g1, c1, ids, i);
            lemma_rebased_prefix_within(g1, c1, ids, n - i);
            assert forall|j: int| 0 <= j < first.len() implies g1.has_commit(
                #[trigger] first[j],
            ) by {
                assert(first[j] == ids[j]);
            }
            lemma_rebased(g1, c1, first);
            lemma_within_transitive(g, g1, gp);
            lemma_ancestor_stable(g, gp, commit_id, upstream);
            lemma_rebased_ancestors(g1, c1, first, commit_id);
            let early = replayed_ids(g1, c1, first);
            let j = choose|j: int| 0 <= j < early.len() && early[j] == commit_id;
            lemma_replayed_ids(g1, c1, first, j);
            assert(gp.commit(commit_id) == g.commit(commit_id));
            let next = gp.commit(commit_id).parents[0];
            assert(g1.commit(c1).parents[0] == next);
            assert(g1.commits[c1.index as int].parents[0].index < c1.index);
            if j + 1 < first.len() {
                lemma_replayed_ids(g1, c1, first, j + 1);
            }
        }
    }
}

/// A copy of a list of commit identifiers.
fn copy_oids(list: &Vec<Oid>) -> (r: Vec<Oid>)
    ensures
        r@ == list@,
{
    let mut out: Vec<Oid> = Vec::new();
    let mut i: usize = 0;
    while i < list.len()
        invariant
            i <= list@.len(),
            out@ == list@.take(i as int),
        decreases list@.len() - i,
    {
        out.push(list[i]);
        assert(out@ =~= list@.take(i + 1));
        i += 1;
    }
    assert(list@.take(list@.len() as int) =~= list@);
    out
}

/// The position of the first occurrence of `c` in a list of commits, or the
/// length of the list.
fn position_of_commit(list: &Vec<Oid>, c: Oid) -> (r: usize)
    ensures
        r == position_of(list@, c),
        r <= list@.len(),
        r < list@.len() <==> list@.contains(c),
{
    let mut i: usize = 0;
    while i < list.len()
        invariant
            i <= list@.len(),
            forall|k: int| 0 <= k < i ==> list@[k] != c,
        decreases list@.len() - i,
    {
        if list[i].index == c.index {
            proof {
                lemma_position_is(list@, c, i as int);
            }
            return i;
        }
        i += 1;
    }
    proof {
        lemma_position_is(list@, c, i as int);
    }
    i
}

/// The first `k` commits of a list, in the opposite order.
fn reversed_prefix(list: &Vec<Oid>, k: usize) -> (r: Vec<Oid>)
    requires
        k <= list@.len(),
    ensures
        r@ == list@.take(k as int).reverse(),
{
    let mut out: Vec<Oid> = Vec::new();
    let mut i: usize = 0;
    while i < k
        invariant
            k <= list@.len(),
            i <= k,
            out@.len() == i,
            forall|j: int| 0 <= j < i ==> out@[j] == list@[k - 1 - j],
        decreases k - i,
    {
        out.push(list[k - 1 - i]);
        i += 1;
    }
    assert(out@ =~= list@.take(k as int).reverse());
    out
}

/// Gives the commit `commit_id` of the stack `stack_id` a new message.
///
/// The commit keeps its parents, its tree and its header fields, and with
/// them its change identity. The commits above it are replayed onto the
/// reworded commit; the commits below it are not touched. An empty message is
/// refused, and so is rewording a pushed commit of a stack that forbids
/// rewriting. A failure changes nothing (see [`reword_failure`]).
pub fn update_commit_message(
    ctx: &mut Workspace,
    stack_id: StackId,
    commit_id: Oid,
    message: &str,
    perm: &mut WorktreeWritePermission,
) -> (r: Result<(), Error>)
    requires
        old(ctx).wf(),
    ensures
        final(ctx).wf(),
        final(ctx).repo.references == old(ctx).repo.references,
        final(ctx).repo.conflicts == old(ctx).repo.conflicts,
        final(ctx).state.default_target == old(ctx).state.default_target,
        match r {
            Ok(_) => {
                let m = reworded(*old(ctx), stack_id, commit_id, message.spec_bytes());
                &&& reword_failure(*old(ctx), stack_id, commit_id, message@) is None
                &&& final(ctx).repo.objects@ == m.objects
                &&& final(ctx).state.stacks@ == m.stacks
                &&& final(ctx).repo.head == Some(m.workspace)
                &&& final(ctx).repo.worktree@ == m.worktree
                &&& reworded_as_promised(*old(ctx), stack_id, commit_id, message.spec_bytes())
            },
            Err(e) => {
                &&& reword_failure(*old(ctx), stack_id, commit_id, message@) == Some(e)
                &&& *final(ctx) == *old(ctx)
            },
        },
{
    if message.is_empty() {
        return Err(Error::EmptyCommitMessage);
    }
    match ctx.repo.assure_resolved() {
        Ok(_) => {},
        Err(e) => {
            return Err(e);
        },
    }
    let until = match ctx.state.get_default_target() {
        Ok(default_target) => default_target.sha,
        Err(e) => {
            return Err(e);
        },
    };
    let at = match ctx.state.position(stack_id) {
        Some(i) => i,
        None => {
            return Err(Error::NotFound);
        },
    };
    let ghost g = ctx.repo.objects@;
    let head = ctx.state.stacks[at].head;
    assert(ctx.state.stacks@[at as int].head_and_tree().consistent(g));
    let list = match ctx.repo.objects.log(head, until) {
        Ok(list) => list,
        Err(e) => {
            return Err(e);
        },
    };
    let k = position_of_commit(&list, commit_id);
    if k >= list.len() {
        return Err(Error::NotFound);
    }
    proof {
        lemma_position_of(list@, commit_id);
        lemma_log_members(g, head, until, k as int);
    }
    let pushed = match &ctx.state.stacks[at].upstream {
        Some(name) => match ctx.repo.find_reference(name.as_slice()) {
            Ok(upstream) => match ctx.repo.objects.log(upstream, until) {
                Ok(pushed) => contains_commit(&pushed, commit_id),
                Err(_) => false,
            },
            Err(_) => false,
        },
        None => false,
    };
    if pushed && !ctx.state.stacks[at].allow_rebasing {
        return Err(Error::ForcePushRequiredButDisallowed);
    }
    let target = &ctx.repo.objects.commits[commit_id.index];
    let reworded_commit = Commit {
        parents: copy_oids(&target.parents),
        tree: target.tree,
        message: bytes_to_vec(message.as_bytes()),
        headers: copy_headers(&target.headers),
    };
    proof {
        assert(reworded_commit@ == with_message(g.commit(commit_id), message.spec_bytes()));
        assert(g.admits(reworded_commit@)) by {
            assert(g.has_tree(g.commits[commit_id.index as int].tree));
            assert forall|j: int| 0 <= j < reworded_commit@.parents.len() implies g.has_commit(
                #[trigger] reworded_commit@.parents[j],
            ) by {
                assert(g.commits[commit_id.index as int].parents[j].index < commit_id.index);
            }
        }
    }
    let ids = reversed_prefix(&list, k);
    proof {
        assert forall|j: int| 0 <= j < ids@.len() implies g.has_commit(#[trigger] ids@[j]) by {
            lemma_log_members(g, head, until, k - 1 - j);
        }
    }
    let new_commit = match ctx.repo.objects.insert_commit(reworded_commit) {
        Ok(id) => id,
        Err(e) => {
            assert(false);
            return Err(e);
        },
    };
    let ghost g1 = ctx.repo.objects@;
    proof {
        lemma_with_commit(g, with_message(g.commit(commit_id), message.spec_bytes()));
    }
    let new_head = match cherry_rebase_group(&mut ctx.repo.objects, new_commit, &ids) {
        Ok(id) => id,
        Err(e) => {
            assert(false);
            return Err(e);
        },
    };
    let update = match compute_updated_branch_head(&ctx.repo.objects, new_head) {
        Ok(update) => update,
        Err(e) => {
            assert(false);
            return Err(e);
        },
    };
    proof {
        lemma_within_transitive(g, g1, ctx.repo.objects@);
        lemma_consistent_later(old(ctx).state, g, ctx.repo.objects@);
    }
    match ctx.state.set_stack_head(&ctx.repo.objects, stack_id, update) {
        Ok(_) => {},
        Err(_) => {
            assert(false);
        },
    }
    proof {
        lemma_set_head_consistent(old(ctx).state, ctx.state, ctx.repo.objects@, at as int, update);
    }
    checkout_branch_trees(ctx, perm);
    update_workspace_commit(ctx, perm);
    proof {
        lemma_reworded_as_promised(*old(ctx), stack_id, commit_id, message);
    }
    Ok(())
}

} // verus!
