//! Moving a commit from one stack to the top of another.

use crate::branch_trees::{
    checkout_branch_trees, compute_updated_branch_head, overlay_of, stack_trees,
};
use crate::commit::change_id_of;
use crate::error::Error;
use crate::history::{
    lemma_ancestor_index, lemma_log_members, lemma_log_no_duplicates, lemma_log_stable,
};
use crate::integration::{update_workspace_commit, with_workspace_commit, workspace_content};
use crate::odb::{lemma_with_within, lemma_within_transitive, ObjectDatabase, Objects};
use crate::oid::Oid;
use crate::position::{lemma_position_of, position_of};
use crate::rebase::{
    cherry_rebase_group, lemma_picked, lemma_rebased, lemma_rebased_in_place, lemma_rebased_log,
    lemma_rebased_within, lemma_replayed_id_is_head, lemma_replayed_ids, replayed_ids, restates,
};
use crate::repository::{target_commit, Workspace, WorktreeWritePermission};
use crate::stack::{
    head_and_tree_of, lemma_consistent_later, lemma_index_of, lemma_set_head_consistent,
    BranchHeadAndTree, Stack, StackId,
};
use vstd::prelude::*;

verus! {

/// A list of commits without the commit `c`, in the same order.
pub open spec fn without(list: Seq<Oid>, c: Oid) -> Seq<Oid>
    decreases list.len(),
{
    if list.len() == 0 {
        seq![]
    } else if list.last() == c {
        without(list.drop_last(), c)
    } else {
        without(list.drop_last(), c).push(list.last())
    }
}

/// What is left of a list without `c` is in the list and is not `c`.
pub proof fn lemma_without_members(list: Seq<Oid>, c: Oid, j: int)
    requires
        0 <= j < without(list, c).len(),
    ensures
        without(list, c)[j] != c,
        list.contains(without(list, c)[j]),
    decreases list.len(),
{
    if list.len() > 0 {
        let rest = without(list.drop_last(), c);
        if j < rest.len() {
            lemma_without_members(list.drop_last(), c, j);
            let k = choose|k: int|
                0 <= k < list.drop_last().len() && list.drop_last()[k] == rest[j];
            assert(list[k] == rest[j]);
        } else {
            assert(list[list.len() - 1] == without(list, c)[j]);
        }
    }
}

/// The database after `subject` was taken out of the commits from `head` down
/// to `base`, and the new head: the other commits, replayed onto `base` from
/// the oldest to the newest.
pub open spec fn taken(g: Objects, head: Oid, base: Oid, subject: Oid) -> (Objects, Oid) {
    g.rebased(base, without(g.log(head, base), subject).reverse())
}

/// Why `subject` cannot be taken out of the stack `source`, if it cannot: the
/// stack or the merge base with the target is missing, the commit is not
/// among the commits of the stack, or it does not have exactly one parent.
pub open spec fn take_failure(
    ctx: Workspace,
    default_target_commit: Oid,
    source: StackId,
    subject: Oid,
) -> Option<Error> {
    let g = ctx.repo.objects@;
    if !ctx.state.has(source) {
        Some(Error::NotFound)
    } else {
        let head = ctx.state.stack(source).head;
        if !g.has_commit(default_target_commit) || g.merge_base(default_target_commit, head)
            is None {
            Some(Error::NotFound)
        } else {
            let base = g.merge_base(default_target_commit, head).unwrap();
            if !g.log(head, base).contains(subject) {
                Some(Error::NotFound)
            } else if g.commit(subject).parents.len() != 1 {
                Some(Error::NoSingleParent)
            } else {
                None
            }
        }
    }
}

/// Why a move cannot be made, if it cannot. Checked in this order: the
/// working directory holds unresolved conflicts; the default target, one of
/// the two stacks or the commit does not resolve; the commit cannot be taken
/// out of the source stack (see [`take_failure`]).
pub open spec fn move_failure(
    ctx: Workspace,
    destination: StackId,
    subject: Oid,
    source: StackId,
) -> Option<Error> {
    if ctx.repo.conflicts@ != Set::<Seq<u8>>::empty() {
        Some(Error::UnresolvedConflicts)
    } else if target_commit(ctx) is None || !ctx.state.has(source) || !ctx.state.has(destination)
        || !ctx.repo.objects@.has_commit(subject) {
        Some(Error::NotFound)
    } else {
        take_failure(ctx, target_commit(ctx).unwrap(), source, subject)
    }
}

/// What a move leaves behind.
pub struct MoveOutcome {
    /// The object database.
    pub objects: Objects,
    /// The stacks.
    pub stacks: Seq<Stack>,
    /// The merge base of the source stack with the target, onto which the
    /// rest of the source stack was replayed.
    pub source_base: Oid,
    /// The new head of the source stack.
    pub source_head: Oid,
    /// The new head of the destination stack: the moved commit, replayed.
    pub destination_head: Oid,
    /// The workspace commit.
    pub workspace: Oid,
    /// The files of the working directory.
    pub worktree: Map<Seq<u8>, Seq<u8>>,
}

/// The outcome of moving `subject` from the stack `source` to the top of the
/// stack `destination`.
///
/// The commits of the source stack other than `subject` are replayed onto the
/// stack's merge base with the target, and the last of them is the new head
/// of the source. Then `subject` is replayed onto the head of the destination
/// and is its new head. Then the workspace commit is built over the new heads.
pub open spec fn moved(
    ctx: Workspace,
    destination: StackId,
    subject: Oid,
    source: StackId,
) -> MoveOutcome {
    let g = ctx.repo.objects@;
    let from = ctx.state.index_of(source);
    let to = ctx.state.index_of(destination);
    let base = g.merge_base(target_commit(ctx).unwrap(), ctx.state.stacks@[from].head).unwrap();
    let (g1, source_head) = taken(g, ctx.state.stacks@[from].head, base, subject);
    let stacks1 = ctx.state.stacks@.update(
        from,
        ctx.state.stacks@[from].with_head(head_and_tree_of(g1, source_head)),
    );
    let (g2, destination_head) = g1.rebased(stacks1[to].head, seq![subject]);
    let stacks2 = stacks1.update(
        to,
        stacks1[to].with_head(head_and_tree_of(g2, destination_head)),
    );
    let (g3, workspace) = with_workspace_commit(g2, stacks2);
    MoveOutcome {
        objects: g3,
        stacks: stacks2,
        source_base: base,
        source_head,
        destination_head,
        workspace,
        worktree: overlay_of(g2, stack_trees(stacks2)),
    }
}

/// What a move promises of the two stacks, where they are two.
///
/// The commits of the source stack, from its new head down to the merge base,
/// are the old ones without the moved commit, which stood in the list once,
/// in the same order; each says
/// what it said before, under the same change identity. Where no other
/// commit of the stack shared the change identity of the moved commit, the
/// moved commit itself is no longer in that list.
///
/// Where the commits below the moved commit each have one parent and the
/// oldest of them stands on the merge base, they keep their identity: only
/// what stood above the moved commit is rewritten.
///
/// The commits of the destination stack, down to any bound that was stored no
/// later than its old head, are its new head and then the old commits. The
/// new head says what the moved commit said, under the same change identity.
/// It is another commit than the moved one unless the moved commit already
/// had the old head of the destination as its parent.
pub open spec fn moved_as_promised(
    ctx: Workspace,
    destination: StackId,
    subject: Oid,
    source: StackId,
) -> bool {
    let m = moved(ctx, destination, subject, source);
    let g = ctx.repo.objects@;
    let from = ctx.state.stack(source);
    let to = ctx.state.stack(destination);
    let before = g.log(from.head, m.source_base);
    let at = position_of(before, subject);
    let rest = without(before, subject);
    let list = m.objects.log(m.source_head, m.source_base);
    &&& g.within(m.objects)
    &&& m.stacks[ctx.state.index_of(source)].head == m.source_head
    &&& m.stacks[ctx.state.index_of(destination)].head == m.destination_head
    &&& rest == before.take(at) + before.skip(at + 1)
    &&& list.len() == rest.len()
    &&& forall|i: int|
        0 <= i < list.len() ==> restates(m.objects.commit(#[trigger] list[i]), g.commit(rest[i]))
    &&& (forall|i: int|
        0 <= i < rest.len() ==> change_id_of(g.commit(#[trigger] rest[i])) != change_id_of(
            g.commit(subject),
        )) ==> !list.contains(subject)
    &&& stands_on(g, rest.skip(at), m.source_base) ==> forall|i: int|
        at <= i < rest.len() ==> #[trigger] list[i] == rest[i]
    &&& forall|until: Oid|
        g.has_commit(until) && until.index <= to.head.index ==> #[trigger] m.objects.log(
            m.destination_head,
            until,
        ) == seq![m.destination_head] + g.log(to.head, until)
    &&& restates(m.objects.commit(m.destination_head), g.commit(subject))
    &&& g.commit(subject).parents[0] != to.head ==> m.destination_head != subject
}

/// Whether a list of commits, newest first, is a chain that stands on `base`:
/// each commit has the next one as its only parent, and the last has `base`.
pub open spec fn stands_on(g: Objects, list: Seq<Oid>, base: Oid) -> bool {
    forall|i: int|
        0 <= i < list.len() ==> g.commit(#[trigger] list[i]).parents == seq![
            if i + 1 < list.len() {
                list[i + 1]
            } else {
                base
            },
        ]
}

/// Taking a commit out of a list keeps what came before it and what came
/// after it, in their order.
pub proof fn lemma_without_one(list: Seq<Oid>, c: Oid)
    requires
        list.no_duplicates(),
        list.contains(c),
    ensures
        without(list, c) == list.take(position_of(list, c)) + list.skip(
            position_of(list, c) + 1,
        ),
    decreases list.len(),
{
    let k = position_of(list, c);
    lemma_position_of(list, c);
    assert(k < list.len()) by {
        let i = choose|i: int| 0 <= i < list.len() && list[i] == c;
        if k >= list.len() {
            assert(list[i] != c);
        }
    }
    let front = list.drop_last();
    if list.last() == c {
        assert(k == list.len() - 1) by {
            if k < list.len() - 1 {
                assert(list[k] != list[list.len() - 1]);
            }
        }
        lemma_without_absent(front, c);
        assert(list.take(k) + list.skip(k + 1) =~= front);
    } else {
        assert(front.contains(c)) by {
            assert(front[k] == c);
        }
        assert(front.no_duplicates());
        lemma_without_one(front, c);
        lemma_position_of(front, c);
        assert(position_of(front, c) == k);
        assert(front.take(k) =~= list.take(k));
        assert((front.take(k) + front.skip(k + 1)).push(list.last()) =~= list.take(k) + list.skip(
            k + 1,
        ));
    }
}

/// Taking out a commit that is not in a list leaves the list as it is.
pub proof fn lemma_without_absent(list: Seq<Oid>, c: Oid)
    requires
        !list.contains(c),
    ensures
        without(list, c) == list,
    decreases list.len(),
{
    if list.len() > 0 {
        assert(list[list.len() - 1] != c);
        assert(!list.drop_last().contains(c)) by {
            if list.drop_last().contains(c) {
                let i = choose|i: int| 0 <= i < list.drop_last().len() && list.drop_last()[i] == c;
                assert(list[i] == c);
            }
        }
        lemma_without_absent(list.drop_last(), c);
        assert(list.drop_last().push(list.last()) =~= list);
    }
}

/// A move between two stacks keeps what [`moved_as_promised`] says.
pub proof fn lemma_moved_as_promised(
    ctx: Workspace,
    destination: StackId,
    subject: Oid,
    source: StackId,
)
    requires
        ctx.wf(),
        move_failure(ctx, destination, subject, source) is None,
        source != destination,
        moved(ctx, destination, subject, source).objects.fits(),
    ensures
        moved_as_promised(ctx, destination, subject, source),
{
    let m = moved(ctx, destination, subject, source);
    let g = ctx.repo.objects@;
    let ia = ctx.state.index_of(source);
    let ib = ctx.state.index_of(destination);
    let from = ctx.state.stacks@[ia];
    let to = ctx.state.stacks@[ib];
    let target = target_commit(ctx).unwrap();
    let base = m.source_base;
    let old_list = g.log(from.head, base);
    let rest = without(old_list, subject);
    let ids = rest.reverse();
    let (g1, a) = g.rebased(base, ids);
    let stacks1 = ctx.state.stacks@.update(ia, from.with_head(head_and_tree_of(g1, a)));
    let (g2, b) = g1.rebased(stacks1[ib].head, seq![subject]);
    let stacks2 = stacks1.update(ib, stacks1[ib].with_head(head_and_tree_of(g2, b)));
    let tree_files = overlay_of(g2, stack_trees(stacks2));
    let (g2t, tree) = g2.with_tree(tree_files);
    let g3 = m.objects;

    assert(from.head_and_tree().consistent(g));
    assert(to.head_and_tree().consistent(g));
    assert(ia != ib);
    assert(stacks1[ib] == to);
    assert(g.is_merge_base(base, target, from.head));
    lemma_ancestor_index(g, base, from.head);

    // every object stays in place
    lemma_rebased_within(g, base, ids);
    lemma_rebased_within(g1, to.head, seq![subject]);
    lemma_with_within(g2, tree_files, workspace_content(stacks2, tree));
    lemma_with_within(g2t, tree_files, workspace_content(stacks2, tree));
    lemma_within_transitive(g2, g2t, g3);
    lemma_within_transitive(g1, g2, g3);
    lemma_within_transitive(g, g1, g3);
    lemma_within_transitive(g, g1, g2);

    // the source stack
    assert forall|k: int| 0 <= k < ids.len() implies g.has_commit(#[trigger] ids[k]) by {
        let j = ids.len() - 1 - k;
        lemma_without_members(old_list, subject, j);
        let i = choose|i: int| 0 <= i < old_list.len() && old_list[i] == rest[j];
        lemma_log_members(g, from.head, base, i);
    }
    lemma_rebased(g, base, ids);
    lemma_rebased_log(g, base, ids, base);
    assert(g.is_ancestor(base, base));
    assert(g.log(base, base) =~= Seq::<Oid>::empty());
    assert(g1.log(a, base) =~= replayed_ids(g, base, ids));
    lemma_log_stable(g1, g3, a, base);
    let list = g3.log(a, base);
    assert(list == replayed_ids(g, base, ids));
    assert forall|i: int| 0 <= i < list.len() implies restates(
        g3.commit(#[trigger] list[i]),
        g.commit(rest[i]),
    ) by {
        lemma_replayed_ids(g, base, ids, i);
        assert(ids[ids.len() - 1 - i] == rest[i]);
        assert(g3.commit(list[i]) == g1.commit(list[i]));
    }
    if forall|i: int|
        0 <= i < rest.len() ==> change_id_of(g.commit(#[trigger] rest[i])) != change_id_of(
            g.commit(subject),
        ) {
        if list.contains(subject) {
            let i = choose|i: int| 0 <= i < list.len() && list[i] == subject;
            assert(restates(g3.commit(list[i]), g.commit(rest[i])));
            assert(g3.commit(subject) == g.commit(subject));
            assert(change_id_of(g.commit(rest[i])) != change_id_of(g.commit(subject)));
        }
    }

    // what stood below the moved commit
    let k = position_of(old_list, subject);
    lemma_position_of(old_list, subject);
    lemma_log_no_duplicates(g, from.head, base);
    lemma_without_one(old_list, subject);
    if stands_on(g, rest.skip(k), base) {
        assert forall|i: int| k <= i < rest.len() implies #[trigger] list[i] == rest[i] by {
            let n = ids.len() - i;
            let chain = ids.take(n);
            assert forall|j: int| 0 <= j < chain.len() implies g.has_commit(#[trigger] chain[j])
                && g.commit(chain[j]).parents == seq![
                if j == 0 {
                    base
                } else {
                    chain[j - 1]
                },
            ] by {
                let at = ids.len() - 1 - j;
                assert(chain[j] == ids[j]);
                assert(ids[j] == rest[at]);
                assert(rest.skip(k)[at - k] == rest[at]);
                if j > 0 {
                    assert(chain[j - 1] == rest[at + 1]);
                    assert(rest.skip(k)[at + 1 - k] == rest[at + 1]);
                }
            }
            lemma_rebased_in_place(g, base, chain);
            lemma_replayed_id_is_head(g, base, ids, i);
            assert(chain.last() == rest[i]);
        }
    }

    // the destination stack
    assert(g1.has_commit(to.head));
    assert(g1.has_commit(subject));
    assert forall|k: int| 0 <= k < seq![subject].len() implies g1.has_commit(
        #[trigger] seq![subject][k],
    ) by {}
    lemma_rebased(g1, to.head, seq![subject]);
    lemma_replayed_ids(g1, to.head, seq![subject], 0);
    assert(seq![subject].drop_last() =~= Seq::<Oid>::empty());
    assert(g1.rebased(to.head, Seq::<Oid>::empty()) == (g1, to.head));
    assert(replayed_ids(g1, to.head, seq![subject]) =~= seq![b]);
    assert(g3.commit(b) == g2.commit(b));
    assert(g1.commit(subject) == g.commit(subject));
    assert forall|until: Oid|
        g.has_commit(until) && until.index <= to.head.index implies #[trigger] g3.log(b, until)
        == seq![b] + g.log(to.head, until) by {
        lemma_rebased_log(g1, to.head, seq![subject], until);
        lemma_log_stable(g, g1, to.head, until);
        lemma_log_stable(g2, g3, b, until);
    }
    lemma_picked(g1, to.head, subject);
    if b == subject {
        assert(g2.commit(subject) == g.commit(subject));
        assert(g.commit(subject).parents[0] == to.head);
    }
}


/// Whether a list of commits holds `c`.
pub fn contains_commit(list: &Vec<Oid>, c: Oid) -> (r: bool)
    ensures
        r == list@.contains(c),
{
    let mut i: usize = 0;
    while i < list.len()
        invariant
            i <= list@.len(),
            forall|k: int| 0 <= k < i ==> list@[k] != c,
        decreases list@.len() - i,
    {
        if list[i].index == c.index {
            assert(list@[i as int] == c);
            return true;
        }
        i += 1;
    }
    false
}

/// A list of commits in the opposite order.
pub fn reversed(list: &Vec<Oid>) -> (r: Vec<Oid>)
    ensures
        r@ == list@.reverse(),
{
    let n = list.len();
    let mut out: Vec<Oid> = Vec::new();
    let mut i: usize = 0;
    while i < n
        invariant
            n == list@.len(),
            i <= n,
            out@.len() == i,
            forall|k: int| 0 <= k < i ==> out@[k] == list@[n - 1 - k],
        decreases n - i,
    {
        out.push(list[n - 1 - i]);
        i += 1;
    }
    assert(out@ =~= list@.reverse());
    out
}

/// The commits of `source_stack` from its head down to
/// `source_merge_base_oid`, newest first, without `subject_commit`.
pub fn filter_out_commit(
    db: &ObjectDatabase,
    source_stack: &Stack,
    source_merge_base_oid: Oid,
    subject_commit: Oid,
) -> (r: Result<Vec<Oid>, Error>)
    requires
        db.wf(),
    ensures
        match r {
            Ok(list) => db@.has_commit(source_stack.head) && db@.has_commit(source_merge_base_oid)
                && list@ == without(
                db@.log(source_stack.head, source_merge_base_oid),
                subject_commit,
            ),
            Err(e) => e == Error::NotFound && !(db@.has_commit(source_stack.head)
                && db@.has_commit(source_merge_base_oid)),
        },
{
    let commits = match db.log(source_stack.head, source_merge_base_oid) {
        Ok(list) => list,
        Err(e) => {
            return Err(e);
        },
    };
    let mut out: Vec<Oid> = Vec::new();
    let mut i: usize = 0;
    while i < commits.len()
        invariant
            i <= commits@.len(),
            out@ == without(commits@.take(i as int), subject_commit),
        decreases commits@.len() - i,
    {
        assert(commits@.take(i + 1).drop_last() =~= commits@.take(i as int));
        assert(commits@.take(i + 1).last() == commits@[i as int]);
        if commits[i].index != subject_commit.index {
            out.push(commits[i]);
        }
        i += 1;
    }
    assert(commits@.take(commits@.len() as int) =~= commits@);
    Ok(out)
}

/// Takes `subject_commit` out of the stack `source_stack_id`.
///
/// The other commits of the stack, from its head down to its merge base with
/// `default_target_commit`, are replayed onto that merge base, oldest first,
/// and the last of them becomes the head of the stack. Every commit above the
/// one that left is rewritten by this. A failure changes nothing. The caller
/// holds the permission to write to the working directory, which is checked
/// out anew only once the commit has found its new place.
pub fn take_commit_from_source_stack(
    ctx: &mut Workspace,
    default_target_commit: Oid,
    source_stack_id: StackId,
    subject_commit: Oid,
    _perm: &mut WorktreeWritePermission,
) -> (r: Result<(), Error>)
    requires
        old(ctx).wf(),
    ensures
        final(ctx).wf(),
        final(ctx).repo.references == old(ctx).repo.references,
        final(ctx).repo.conflicts == old(ctx).repo.conflicts,
        final(ctx).repo.worktree == old(ctx).repo.worktree,
        final(ctx).repo.head == old(ctx).repo.head,
        final(ctx).state.default_target == old(ctx).state.default_target,
        old(ctx).repo.objects@.within(final(ctx).repo.objects@),
        match r {
            Ok(_) => {
                let g = old(ctx).repo.objects@;
                let stack = old(ctx).state.stack(source_stack_id);
                let base = g.merge_base(default_target_commit, stack.head).unwrap();
                let (after, head) = taken(g, stack.head, base, subject_commit);
                &&& take_failure(*old(ctx), default_target_commit, source_stack_id, subject_commit)
                    is None
                &&& final(ctx).repo.objects@ == after
                &&& final(ctx).state.stacks@ == old(ctx).state.stacks@.update(
                    old(ctx).state.index_of(source_stack_id),
                    stack.with_head(head_and_tree_of(after, head)),
                )
            },
            Err(e) => {
                &&& take_failure(*old(ctx), default_target_commit, source_stack_id, subject_commit)
                    == Some(e)
                &&& *final(ctx) == *old(ctx)
            },
        },
{
    let at = match ctx.state.position(source_stack_id) {
        Some(i) => i,
        None => {
            return Err(Error::NotFound);
        },
    };
    let source_head = ctx.state.stacks[at].head;
    assert(ctx.state.stacks@[at as int].head_and_tree().consistent(ctx.repo.objects@));
    let source_merge_base_oid = match ctx.repo.objects.merge_base(
        default_target_commit,
        source_head,
    ) {
        Ok(m) => m,
        Err(e) => {
            return Err(e);
        },
    };
    let commits = match ctx.repo.objects.log(source_head, source_merge_base_oid) {
        Ok(list) => list,
        Err(e) => {
            return Err(e);
        },
    };
    if !contains_commit(&commits, subject_commit) {
        return Err(Error::NotFound);
    }
    let ghost g = ctx.repo.objects@;
    proof {
        let k = choose|k: int| 0 <= k < commits@.len() && commits@[k] == subject_commit;
        lemma_log_members(g, source_head, source_merge_base_oid, k);
    }
    let subject_parents = &ctx.repo.objects.commits[subject_commit.index].parents;
    if subject_parents.len() != 1 {
        return Err(Error::NoSingleParent);
    }
    let subject_parent = subject_parents[0];
    let source_commits_without_subject = match filter_out_commit(
        &ctx.repo.objects,
        &ctx.state.stacks[at],
        source_merge_base_oid,
        subject_commit,
    ) {
        Ok(list) => list,
        Err(e) => {
            return Err(e);
        },
    };
    let replay = reversed(&source_commits_without_subject);
    proof {
        assert forall|k: int| 0 <= k < replay@.len() implies g.has_commit(
            #[trigger] replay@[k],
        ) by {
            let j = replay@.len() - 1 - k;
            lemma_without_members(commits@, subject_commit, j);
            let m = choose|m: int|
                0 <= m < commits@.len() && commits@[m] == source_commits_without_subject@[j];
            lemma_log_members(g, source_head, source_merge_base_oid, m);
        }
    }
    let new_source_head = match cherry_rebase_group(
        &mut ctx.repo.objects,
        source_merge_base_oid,
        &replay,
    ) {
        Ok(head) => head,
        Err(e) => {
            assert(false);
            return Err(e);
        },
    };
    let update = match compute_updated_branch_head(&ctx.repo.objects, new_source_head) {
        Ok(update) => update,
        Err(e) => {
            assert(false);
            return Err(e);
        },
    };
    proof {
        lemma_consistent_later(old(ctx).state, g, ctx.repo.objects@);
        assert(ctx.repo.objects@.commit(subject_commit) == g.commit(subject_commit));
        assert(g.commit(subject_commit).parents =~= seq![subject_parent]);
        assert(g.commits[subject_commit.index as int].parents[0].index < subject_commit.index);
    }
    match ctx.state.replace_head(
        &ctx.repo.objects,
        source_stack_id,
        subject_commit,
        subject_parent,
    ) {
        Ok(_) => {},
        Err(_) => {
            assert(false);
        },
    }
    let ghost middle = ctx.state;
    proof {
        let parent_head = BranchHeadAndTree {
            head: subject_parent,
            tree: ctx.repo.objects@.commit(subject_parent).tree,
        };
        if old(ctx).state.stacks@[at as int].head == subject_commit {
            lemma_set_head_consistent(
                old(ctx).state,
                middle,
                ctx.repo.objects@,
                at as int,
                parent_head,
            );
        }
        assert(middle.stacks@[at as int].id == source_stack_id);
        lemma_index_of(middle, source_stack_id, at as int);
    }
    match ctx.state.set_stack_head(&ctx.repo.objects, source_stack_id, update) {
        Ok(_) => {},
        Err(_) => {
            assert(false);
        },
    }
    proof {
        lemma_set_head_consistent(middle, ctx.state, ctx.repo.objects@, at as int, update);
        assert(ctx.state.stacks@ =~= old(ctx).state.stacks@.update(
            at as int,
            old(ctx).state.stack(source_stack_id).with_head(update),
        ));
    }
    Ok(())
}

/// Puts `commit_id` on top of the stack `destination_stack_id`: the commit is
/// replayed onto the head of the stack, and what this makes is the new head.
/// A failure changes nothing. The caller holds the permission to write to the
/// working directory.
pub fn move_commit_to_destination_stack(
    ctx: &mut Workspace,
    destination_stack_id: StackId,
    commit_id: Oid,
    _perm: &mut WorktreeWritePermission,
) -> (r: Result<(), Error>)
    requires
        old(ctx).wf(),
    ensures
        final(ctx).wf(),
        final(ctx).repo.references == old(ctx).repo.references,
        final(ctx).repo.conflicts == old(ctx).repo.conflicts,
        final(ctx).repo.worktree == old(ctx).repo.worktree,
        final(ctx).repo.head == old(ctx).repo.head,
        final(ctx).state.default_target == old(ctx).state.default_target,
        old(ctx).repo.objects@.within(final(ctx).repo.objects@),
        match r {
            Ok(_) => {
                let g = old(ctx).repo.objects@;
                let stack = old(ctx).state.stack(destination_stack_id);
                let (after, head) = g.rebased(stack.head, seq![commit_id]);
                &&& old(ctx).state.has(destination_stack_id)
                &&& g.has_commit(commit_id)
                &&& final(ctx).repo.objects@ == after
                &&& final(ctx).state.stacks@ == old(ctx).state.stacks@.update(
                    old(ctx).state.index_of(destination_stack_id),
                    stack.with_head(head_and_tree_of(after, head)),
                )
            },
            Err(e) => {
                &&& e == Error::NotFound
                &&& !(old(ctx).state.has(destination_stack_id) && old(
                    ctx,
                ).repo.objects@.has_commit(commit_id))
                &&& *final(ctx) == *old(ctx)
            },
        },
{
    let at = match ctx.state.position(destination_stack_id) {
        Some(i) => i,
        None => {
            return Err(Error::NotFound);
        },
    };
    let destination_head_commit_oid = ctx.state.stacks[at].head;
    let ghost g = ctx.repo.objects@;
    assert(ctx.state.stacks@[at as int].head_and_tree().consistent(g));
    let mut ids: Vec<Oid> = Vec::new();
    ids.push(commit_id);
    assert(ids@ =~= seq![commit_id]);
    let new_destination_head_oid = match cherry_rebase_group(
        &mut ctx.repo.objects,
        destination_head_commit_oid,
        &ids,
    ) {
        Ok(head) => head,
        Err(e) => {
            assert(!g.has_commit(ids@[0]));
            return Err(e);
        },
    };
    assert(g.has_commit(ids@[0]));
    let update = match compute_updated_branch_head(&ctx.repo.objects, new_destination_head_oid) {
        Ok(update) => update,
        Err(e) => {
            assert(false);
            return Err(e);
        },
    };
    proof {
        lemma_consistent_later(old(ctx).state, g, ctx.repo.objects@);
    }
    match ctx.state.set_stack_head(&ctx.repo.objects, destination_stack_id, update) {
        Ok(_) => {},
        Err(_) => {
            assert(false);
        },
    }
    proof {
        lemma_set_head_consistent(old(ctx).state, ctx.state, ctx.repo.objects@, at as int, update);
    }
    Ok(())
}

/// Moves a commit from one stack to another.
///
/// The commit ends up at the top of the destination stack; the source stack
/// keeps its other commits, rewritten where they stood above the commit that
/// left. Then the working directory is checked out anew and the workspace
/// commit is rebuilt. The caller holds the permission to write to the working
/// directory.
///
/// Where the two stacks are one and the same, the commit moves to the top of
/// that stack.
///
/// Every reason to fail is found before anything is changed, so a failed move
/// leaves the workspace as it was (see [`move_failure`]). The two halves of a
/// move, [`take_commit_from_source_stack`] and
/// [`move_commit_to_destination_stack`], are operations of their own: a caller
/// who makes them one by one has no such promise between them.
pub fn move_commit(
    ctx: &mut Workspace,
    target_stack_id: StackId,
    subject_commit_oid: Oid,
    perm: &mut WorktreeWritePermission,
    source_stack_id: StackId,
) -> (r: Result<(), Error>)
    requires
        old(ctx).wf(),
    ensures
        final(ctx).wf(),
        final(ctx).repo.references == old(ctx).repo.references,
        final(ctx).repo.conflicts == old(ctx).repo.conflicts,
        final(ctx).state.default_target == old(ctx).state.default_target,
        match r {
            Ok(_) => {
                let m = moved(*old(ctx), target_stack_id, subject_commit_oid, source_stack_id);
                &&& move_failure(*old(ctx), target_stack_id, subject_commit_oid, source_stack_id)
                    is None
                &&& final(ctx).repo.objects@ == m.objects
                &&& final(ctx).state.stacks@ == m.stacks
                &&& final(ctx).repo.head == Some(m.workspace)
                &&& final(ctx).repo.worktree@ == m.worktree
                &&& source_stack_id != target_stack_id ==> moved_as_promised(
                    *old(ctx),
                    target_stack_id,
                    subject_commit_oid,
                    source_stack_id,
                )
            },
            Err(e) => {
                &&& move_failure(*old(ctx), target_stack_id, subject_commit_oid, source_stack_id)
                    == Some(e)
                &&& *final(ctx) == *old(ctx)
            },
        },
{
    match ctx.repo.assure_resolved() {
        Ok(_) => {},
        Err(e) => {
            return Err(e);
        },
    }
    let default_target_commit = match ctx.state.get_default_target() {
        Ok(default_target) => match ctx.repo.find_reference(default_target.branch.as_slice()) {
            Ok(id) => id,
            Err(e) => {
                return Err(e);
            },
        },
        Err(e) => {
            return Err(e);
        },
    };
    if ctx.state.position(source_stack_id).is_none() {
        return Err(Error::NotFound);
    }
    if ctx.state.position(target_stack_id).is_none() {
        return Err(Error::NotFound);
    }
    let ghost to = ctx.state.index_of(target_stack_id);
    if subject_commit_oid.index >= ctx.repo.objects.commits.len() {
        return Err(Error::NotFound);
    }
    match take_commit_from_source_stack(
        ctx,
        default_target_commit,
        source_stack_id,
        subject_commit_oid,
        perm,
    ) {
        Ok(_) => {},
        Err(e) => {
            return Err(e);
        },
    }
    proof {
        assert(ctx.state.stacks@[to].id == target_stack_id);
        lemma_index_of(ctx.state, target_stack_id, to);
    }
    match move_commit_to_destination_stack(ctx, target_stack_id, subject_commit_oid, perm) {
        Ok(_) => {},
        Err(_) => {
            assert(false);
        },
    }
    checkout_branch_trees(ctx, perm);
    update_workspace_commit(ctx, perm);
    proof {
        if source_stack_id != target_stack_id {
            lemma_moved_as_promised(
                *old(ctx),
                target_stack_id,
                subject_commit_oid,
                source_stack_id,
            );
        }
    }
    Ok(())
}

} // verus!
