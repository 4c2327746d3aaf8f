//! The upstream and integration classifier, and the list of stacks with
//! their classified commits.

use crate::bytes::{bytes_eq, bytes_to_vec};
use crate::commit::{change_id_of, text_of, Commit, CommitExt};
use crate::error::Error;
use crate::history::{lemma_ancestor_stable, lemma_ancestor_transitive, lemma_log_members};
use crate::odb::{ObjectDatabase, Objects};
use crate::oid::Oid;
use crate::repository::{target_commit, upstream_commit, Workspace};
use crate::stack::{Stack, StackId};
use vstd::prelude::*;
use vstd::utf8::encode_utf8_decode_utf8;

verus! {

/// Where a commit of a stack stands with respect to the stack's remote
/// counterpart and to the default target.
#[derive(Clone, Copy, Debug, PartialEq, Eq, Structural)]
pub enum CommitStatus {
    /// No equivalent commit is on the remote tracking reference.
    LocalOnly,
    /// An equivalent commit is on the remote tracking reference, and the
    /// default target does not have one yet.
    Remote,
    /// The history of the default target holds an equivalent commit.
    Integrated,
}

/// A commit of a stack, as it is listed.
#[derive(Debug)]
pub struct VirtualBranchCommit {
    pub id: Oid,
    /// The commit message.
    pub description: Vec<u8>,
    pub change_id: Option<String>,
    pub status: CommitStatus,
    /// Whether the commit was pushed and is not yet integrated.
    pub is_remote: bool,
    /// Whether the default target already holds the change.
    pub is_integrated: bool,
}

/// A stack, as it is listed: its head and tree, and its commits from the head
/// down to the target, newest first, each classified.
#[derive(Debug)]
pub struct VirtualBranch {
    pub id: StackId,
    pub head: Oid,
    pub tree: Oid,
    pub commits: Vec<VirtualBranchCommit>,
    /// Whether pushing the stack would have to overwrite what was pushed.
    pub requires_force: bool,
    /// The commit of the remote tracking reference, once the stack was pushed.
    pub upstream: Option<Oid>,
}

/// Whether two commits make the same change: they have the same change
/// identity. A commit without a change identity is equivalent to itself only.
pub open spec fn equivalent(g: Objects, a: Oid, c: Oid) -> bool {
    match (change_id_of(g.commit(a)), change_id_of(g.commit(c))) {
        (Some(x), Some(y)) => x == y,
        _ => a == c,
    }
}

/// Whether the history of `tip` holds a commit that is equivalent to `c`.
pub open spec fn in_history(g: Objects, tip: Oid, c: Oid) -> bool {
    exists|a: Oid| g.has_commit(a) && #[trigger] g.is_ancestor(a, tip) && equivalent(g, a, c)
}

/// The status of the commit `c` of a stack whose remote tracking reference
/// stands for `upstream`, where the default target stands for `target`.
pub open spec fn status_of(g: Objects, target: Oid, upstream: Option<Oid>, c: Oid) -> CommitStatus {
    if in_history(g, target, c) {
        CommitStatus::Integrated
    } else if upstream is Some && in_history(g, upstream.unwrap(), c) {
        CommitStatus::Remote
    } else {
        CommitStatus::LocalOnly
    }
}

/// A commit that was pushed and that the target does not have is remote.
/// Once the target holds what was pushed, the commit is integrated, whatever
/// was added to the database in between.
pub proof fn lemma_pushed_then_integrated(
    g: Objects,
    later: Objects,
    target: Oid,
    merged_target: Oid,
    upstream: Oid,
    c: Oid,
)
    requires
        g.has_commit(c),
        g.has_commit(upstream),
        g.is_ancestor(c, upstream),
        !in_history(g, target, c),
        g.within(later),
        later.is_ancestor(upstream, merged_target),
    ensures
        status_of(g, target, Some(upstream), c) == CommitStatus::Remote,
        status_of(later, merged_target, Some(upstream), c) == CommitStatus::Integrated,
{
    assert(equivalent(g, c, c));
    assert(g.has_commit(c) && g.is_ancestor(c, upstream) && equivalent(g, c, c));
    lemma_ancestor_stable(g, later, c, upstream);
    lemma_ancestor_transitive(later, c, upstream, merged_target);
    assert(later.has_commit(c) && later.is_ancestor(c, merged_target) && equivalent(later, c, c));
}

/// Whether two commits make the same change.
pub fn same_change(a: &Commit, a_id: Oid, c: &Commit, c_id: Oid) -> (r: bool)
    ensures
        r == match (change_id_of(a@), change_id_of(c@)) {
            (Some(x), Some(y)) => x == y,
            _ => a_id == c_id,
        },
{
    match (a.change_id(), c.change_id()) {
        (Some(x), Some(y)) => {
            proof {
                encode_utf8_decode_utf8(x@);
                encode_utf8_decode_utf8(y@);
            }
            bytes_eq(x.as_str().as_bytes(), y.as_str().as_bytes())
        },
        _ => a_id.index == c_id.index,
    }
}

/// Whether one of the marked commits is equivalent to `c`.
fn marked_history_holds(db: &ObjectDatabase, marks: &Vec<bool>, tip: Oid, c: Oid) -> (r: bool)
    requires
        db@.has_commit(c),
        marks@.len() == db@.commits.len(),
        forall|a: Oid|
            #![trigger db@.is_ancestor(a, tip)]
            db@.has_commit(a) ==> marks@[a.index as int] == db@.is_ancestor(a, tip),
    ensures
        r == in_history(db@, tip, c),
{
    let subject = &db.commits[c.index];
    let mut i: usize = 0;
    while i < db.commits.len()
        invariant
            db@.has_commit(c),
            subject@ == db@.commit(c),
            marks@.len() == db@.commits.len(),
            i <= db@.commits.len(),
            forall|a: Oid|
                #![trigger db@.is_ancestor(a, tip)]
                db@.has_commit(a) ==> marks@[a.index as int] == db@.is_ancestor(a, tip),
            forall|a: Oid|
                #![trigger db@.is_ancestor(a, tip)]
                a.index < i ==> !(db@.is_ancestor(a, tip) && equivalent(db@, a, c)),
        decreases db@.commits.len() - i,
    {
        let here = Oid { index: i };
        assert(marks@[i as int] == db@.is_ancestor(here, tip));
        if marks[i] && same_change(&db.commits[i], here, subject, c) {
            assert(db@.has_commit(here) && db@.is_ancestor(here, tip) && equivalent(db@, here, c));
            return true;
        }
        proof {
            assert forall|a: Oid|
                #![trigger db@.is_ancestor(a, tip)]
                a.index < i + 1 implies !(db@.is_ancestor(a, tip) && equivalent(db@, a, c)) by {
                if a.index == i {
                    assert(a == here);
                }
            }
        }
        i += 1;
    }
    false
}

/// The status of each of the commits `commits` of a stack whose remote
/// tracking reference stands for `upstream`, where the default target stands
/// for `target`. Each commit is classified by itself.
pub fn classify_commits(
    db: &ObjectDatabase,
    target: Oid,
    upstream: Option<Oid>,
    commits: &Vec<Oid>,
) -> (r: Result<Vec<CommitStatus>, Error>)
    requires
        db.wf(),
    ensures
        match r {
            Ok(list) => {
                &&& db@.has_commit(target)
                &&& upstream is Some ==> db@.has_commit(upstream.unwrap())
                &&& list@.len() == commits@.len()
                &&& forall|i: int|
                    0 <= i < commits@.len() ==> db@.has_commit(commits@[i]) && #[trigger] list@[i]
                        == status_of(db@, target, upstream, commits@[i])
            },
            Err(e) => {
                &&& e == Error::NotFound
                &&& !db@.has_commit(target) || (upstream is Some && !db@.has_commit(
                    upstream.unwrap(),
                )) || exists|i: int| 0 <= i < commits@.len() && !db@.has_commit(commits@[i])
            },
        },
{
    let n = db.commits.len();
    if target.index >= n {
        return Err(Error::NotFound);
    }
    let of_target = db.ancestors(target);
    let of_upstream = match upstream {
        Some(u) => {
            if u.index >= n {
                return Err(Error::NotFound);
            }
            Some(db.ancestors(u))
        },
        None => None,
    };
    let mut out: Vec<CommitStatus> = Vec::new();
    let mut i: usize = 0;
    while i < commits.len()
        invariant
            db.wf(),
            n == db@.commits.len(),
            db@.has_commit(target),
            of_target@.len() == n,
            forall|a: Oid|
                #![trigger db@.is_ancestor(a, target)]
                db@.has_commit(a) ==> of_target@[a.index as int] == db@.is_ancestor(a, target),
            upstream is Some == of_upstream is Some,
            upstream is Some ==> {
                &&& db@.has_commit(upstream.unwrap())
                &&& of_upstream.unwrap()@.len() == n
                &&& forall|a: Oid|
                    #![trigger db@.is_ancestor(a, upstream.unwrap())]
                    db@.has_commit(a) ==> of_upstream.unwrap()@[a.index as int]
                        == db@.is_ancestor(a, upstream.unwrap())
            },
            i <= commits@.len(),
            out@.len() == i,
            forall|k: int|
                0 <= k < i ==> db@.has_commit(commits@[k]) && #[trigger] out@[k] == status_of(
                    db@,
                    target,
                    upstream,
                    commits@[k],
                ),
        decreases commits@.len() - i,
    {
        let c = commits[i];
        if c.index >= n {
            assert(!db@.has_commit(commits@[i as int]));
            return Err(Error::NotFound);
        }
        let status = if marked_history_holds(db, &of_target, target, c) {
            CommitStatus::Integrated
        } else {
            match &of_upstream {
                Some(marks) => {
                    if marked_history_holds(db, marks, upstream.unwrap(), c) {
                        CommitStatus::Remote
                    } else {
                        CommitStatus::LocalOnly
                    }
                },
                None => CommitStatus::LocalOnly,
            }
        };
        out.push(status);
        i += 1;
    }
    Ok(out)
}

/// Whether a listed commit describes the commit `id` of a stack.
pub open spec fn describes(
    g: Objects,
    target: Oid,
    upstream: Option<Oid>,
    listed: VirtualBranchCommit,
    id: Oid,
) -> bool {
    &&& listed.id == id
    &&& listed.description@ == g.commit(id).message
    &&& text_of(listed.change_id) == change_id_of(g.commit(id))
    &&& listed.status == status_of(g, target, upstream, id)
    &&& listed.is_remote == (listed.status == CommitStatus::Remote)
    &&& listed.is_integrated == (listed.status == CommitStatus::Integrated)
}

/// Whether a listed stack describes a stack of the workspace: it has the
/// stack's head and tree; its commits are those from the head down to the
/// commit that the stacks are based on, newest first, each classified against
/// the commit `target` that the default target stands for; and it requires
/// force exactly if what was pushed is not in the history of the head.
pub open spec fn lists(ctx: Workspace, target: Oid, listed: VirtualBranch, stack: Stack) -> bool {
    let g = ctx.repo.objects@;
    let commits = g.log(stack.head, ctx.state.default_target.unwrap().sha);
    let upstream = upstream_commit(ctx, stack);
    &&& listed.id == stack.id
    &&& listed.head == stack.head
    &&& listed.tree == stack.tree
    &&& listed.upstream == upstream
    &&& listed.requires_force == (upstream is Some && !g.is_ancestor(upstream.unwrap(), stack.head))
    &&& listed.commits@.len() == commits.len()
    &&& forall|i: int|
        0 <= i < commits.len() ==> describes(
            g,
            target,
            upstream,
            #[trigger] listed.commits@[i],
            commits[i],
        )
}

/// Lists one stack (see [`lists`]).
fn list_stack(ctx: &Workspace, target: Oid, at: usize) -> (r: VirtualBranch)
    requires
        ctx.wf(),
        at < ctx.state.stacks@.len(),
        ctx.repo.objects@.has_commit(target),
        ctx.state.default_target is Some,
        ctx.repo.objects@.has_commit(ctx.state.default_target.unwrap().sha),
    ensures
        lists(*ctx, target, r, ctx.state.stacks@[at as int]),
{
    let stack = &ctx.state.stacks[at];
    let db = &ctx.repo.objects;
    let ghost g = db@;
    assert(stack.head_and_tree().consistent(g));
    let until = match &ctx.state.default_target {
        Some(t) => t.sha,
        None => Oid { index: 0 },
    };
    let upstream = match &stack.upstream {
        Some(name) => match ctx.repo.find_reference(name.as_slice()) {
            Ok(id) => Some(id),
            Err(_) => None,
        },
        None => None,
    };
    let requires_force = match upstream {
        Some(u) => !db.is_ancestor(u, stack.head),
        None => false,
    };
    let ids = match db.log(stack.head, until) {
        Ok(list) => list,
        Err(_) => {
            assert(false);
            Vec::new()
        },
    };
    proof {
        assert forall|i: int| 0 <= i < ids@.len() implies g.has_commit(#[trigger] ids@[i]) by {
            lemma_log_members(g, stack.head, until, i);
        }
    }
    let statuses = match classify_commits(db, target, upstream, &ids) {
        Ok(list) => list,
        Err(_) => {
            assert(false);
            Vec::new()
        },
    };
    let mut commits: Vec<VirtualBranchCommit> = Vec::new();
    let mut i: usize = 0;
    while i < ids.len()
        invariant
            g == db@,
            i <= ids@.len(),
            statuses@.len() == ids@.len(),
            commits@.len() == i,
            forall|k: int|
                0 <= k < ids@.len() ==> g.has_commit(ids@[k]) && #[trigger] statuses@[k]
                    == status_of(g, target, upstream, ids@[k]),
            forall|k: int|
                0 <= k < i ==> describes(g, target, upstream, #[trigger] commits@[k], ids@[k]),
        decreases ids@.len() - i,
    {
        let id = ids[i];
        assert(g.has_commit(ids@[i as int]) && statuses@[i as int] == status_of(
            g,
            target,
            upstream,
            ids@[i as int],
        ));
        let commit = &db.commits[id.index];
        let status = statuses[i];
        commits.push(
            VirtualBranchCommit {
                id,
                description: bytes_to_vec(commit.message.as_slice()),
                change_id: commit.change_id(),
                status,
                is_remote: status == CommitStatus::Remote,
                is_integrated: status == CommitStatus::Integrated,
            },
        );
        i += 1;
    }
    VirtualBranch {
        id: stack.id,
        head: stack.head,
        tree: stack.tree,
        commits,
        requires_force,
        upstream,
    }
}

/// Lists the stacks of the workspace with their classified commits, in the
/// order of the stacks (see [`lists`]). Nothing is changed.
pub fn list_virtual_branches(ctx: &Workspace) -> (r: Result<Vec<VirtualBranch>, Error>)
    requires
        ctx.wf(),
    ensures
        match r {
            Ok(list) => {
                &&& target_commit(*ctx) is Some
                &&& ctx.repo.objects@.has_commit(ctx.state.default_target.unwrap().sha)
                &&& list@.len() == ctx.state.stacks@.len()
                &&& forall|i: int|
                    0 <= i < list@.len() ==> lists(
                        *ctx,
                        target_commit(*ctx).unwrap(),
                        #[trigger] list@[i],
                        ctx.state.stacks@[i],
                    )
            },
            Err(e) => {
                &&& e == Error::NotFound
                &&& target_commit(*ctx) is None
                    || !ctx.repo.objects@.has_commit(ctx.state.default_target.unwrap().sha)
            },
        },
{
    let (target, until) = match ctx.state.get_default_target() {
        Ok(default_target) => match ctx.repo.find_reference(default_target.branch.as_slice()) {
            Ok(id) => (id, default_target.sha),
            Err(e) => {
                return Err(e);
            },
        },
        Err(e) => {
            return Err(e);
        },
    };
    if until.index >= ctx.repo.objects.commits.len() {
        return Err(Error::NotFound);
    }
    let mut out: Vec<VirtualBranch> = Vec::new();
    let mut i: usize = 0;
    while i < ctx.state.stacks.len()
        invariant
            ctx.wf(),
            ctx.repo.objects@.has_commit(target),
            ctx.state.default_target is Some,
            ctx.repo.objects@.has_commit(ctx.state.default_target.unwrap().sha),
            i <= ctx.state.stacks@.len(),
            out@.len() == i,
            forall|k: int|
                0 <= k < i ==> lists(*ctx, target, #[trigger] out@[k], ctx.state.stacks@[k]),
        decreases ctx.state.stacks@.len() - i,
    {
        let listed = list_stack(ctx, target, i);
        out.push(listed);
        i += 1;
    }
    Ok(out)
}

} // verus!
