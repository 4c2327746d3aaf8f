//! The repository: objects, references and the working directory.

use crate::commit::Commit;
use crate::conflicts::Conflicts;
use crate::error::Error;
use crate::odb::ObjectDatabase;
use crate::oid::Oid;
use crate::refs::References;
use crate::stack::{Stack, VirtualBranchesState};
use crate::tree::Tree;
use vstd::prelude::*;

verus! {

/// The token that a caller holds while it alone may write to the working
/// directory. Every operation that rewrites stacks or checks out files asks
/// for it.
#[derive(Debug)]
pub struct WorktreeWritePermission {}

impl WorktreeWritePermission {
    /// Takes the exclusive permission to write to the working directory.
    pub fn acquire() -> WorktreeWritePermission {
        WorktreeWritePermission {  }
    }
}

/// A repository: the object database, the references into it, and the one
/// working directory that all stacks share.
#[derive(Debug)]
pub struct Repository {
    pub objects: ObjectDatabase,
    pub references: References,
    pub conflicts: Conflicts,
    /// The files of the working directory.
    pub worktree: Tree,
    /// The commit that is checked out.
    pub head: Option<Oid>,
}

impl Repository {
    /// The repository is well formed: its object database and its working
    /// directory are.
    pub open spec fn wf(&self) -> bool {
        self.objects.wf() && self.worktree.wf()
    }

    /// The commit that a reference stands for, where the reference exists and
    /// the commit is in the database.
    pub open spec fn resolved(&self, name: Seq<u8>) -> Option<Oid> {
        match self.references.resolve(name) {
            Some(id) => if self.objects@.has_commit(id) {
                Some(id)
            } else {
                None
            },
            None => None,
        }
    }

    /// An empty repository.
    pub fn new() -> (r: Repository)
        ensures
            r.wf(),
            r.objects@.commits.len() == 0,
            r.objects@.trees.len() == 0,
            r.head is None,
            r.references.entries@.len() == 0,
            r.conflicts.paths@.len() == 0,
            r.worktree.entries@.len() == 0,
            r.conflicts@ == Set::<Seq<u8>>::empty(),
            r.worktree@ == Map::<Seq<u8>, Seq<u8>>::empty(),
            forall|name: Seq<u8>| r.references.resolve(name) is None,
    {
        Repository {
            objects: ObjectDatabase::new(),
            references: References::new(),
            conflicts: Conflicts::new(),
            worktree: Tree::new(),
            head: None,
        }
    }

    /// The commit that the reference `name` stands for.
    pub fn find_reference(&self, name: &[u8]) -> (r: Result<Oid, Error>)
        ensures
            match r {
                Ok(id) => self.resolved(name@) == Some(id) && self.objects@.has_commit(id),
                Err(e) => self.resolved(name@) is None && e == Error::NotFound,
            },
    {
        match self.references.find(name) {
            Ok(id) => {
                if id.index < self.objects.commits.len() {
                    Ok(id)
                } else {
                    Err(Error::NotFound)
                }
            },
            Err(e) => Err(e),
        }
    }

    /// The commit with the given identifier.
    pub fn find_commit(&self, id: Oid) -> (r: Result<&Commit, Error>)
        ensures
            match r {
                Ok(c) => self.objects@.has_commit(id) && c@ == self.objects@.commit(id),
                Err(e) => !self.objects@.has_commit(id) && e == Error::NotFound,
            },
    {
        self.objects.find_commit(id)
    }

    /// Fails while the working directory holds unresolved conflicts.
    pub fn assure_resolved(&self) -> (r: Result<(), Error>)
        ensures
            match r {
                Ok(_) => self.conflicts@ == Set::<Seq<u8>>::empty(),
                Err(e) => e == Error::UnresolvedConflicts && self.conflicts@ != Set::<
                    Seq<u8>,
                >::empty(),
            },
    {
        self.conflicts.assure_resolved()
    }
}

/// A repository together with the stacks that live in it.
#[derive(Debug)]
pub struct Workspace {
    pub repo: Repository,
    pub state: VirtualBranchesState,
}

impl Workspace {
    /// The workspace is well formed: the repository is, no two stacks share
    /// an identifier, and every stack's head is a commit whose tree is the
    /// stack's tree.
    pub open spec fn wf(&self) -> bool {
        &&& self.repo.wf()
        &&& self.state.wf()
        &&& self.state.consistent(self.repo.objects@)
    }

    /// An empty repository without stacks.
    pub fn new() -> (r: Workspace)
        ensures
            r.wf(),
            r.state.stacks@.len() == 0,
            r.state.default_target is None,
            r.repo.objects@.commits.len() == 0,
            r.repo.objects@.trees.len() == 0,
            r.repo.head is None,
            r.repo.conflicts@ == Set::<Seq<u8>>::empty(),
            r.repo.worktree@ == Map::<Seq<u8>, Seq<u8>>::empty(),
            forall|name: Seq<u8>| r.repo.references.resolve(name) is None,
    {
        Workspace { repo: Repository::new(), state: VirtualBranchesState::new() }
    }
}

/// The commit that the default target stands for.
pub open spec fn target_commit(ctx: Workspace) -> Option<Oid> {
    match ctx.state.default_target {
        Some(t) => ctx.repo.resolved(t.branch@),
        None => None,
    }
}

/// The commit that the remote tracking reference of a stack stands for, once
/// the stack was pushed.
pub open spec fn upstream_commit(ctx: Workspace, stack: Stack) -> Option<Oid> {
    match stack.upstream {
        Some(name) => ctx.repo.resolved(name@),
        None => None,
    }
}

} // verus!
