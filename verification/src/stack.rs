//! Stacks and the store that owns them.

use crate::error::Error;
use crate::odb::{ObjectDatabase, Objects};
use crate::oid::Oid;
use vstd::prelude::*;

verus! {

/// The identifier of a stack.
#[derive(Clone, Copy, Debug, PartialEq, Eq, Structural, Hash)]
pub struct StackId {
    pub value: u64,
}

/// A stack: a head commit, and with it the commits from the head down to the
/// merge base with the default target.
#[derive(Debug)]
pub struct Stack {
    pub id: StackId,
    pub name: Vec<u8>,
    /// The newest commit of the stack.
    pub head: Oid,
    /// The tree of the head, kept with it.
    pub tree: Oid,
    /// Whether commits that were pushed may be rewritten.
    pub allow_rebasing: bool,
    /// The name of the remote tracking reference, once the stack was pushed.
    pub upstream: Option<Vec<u8>>,
}

/// The reference that all stacks are measured against.
#[derive(Debug)]
pub struct Target {
    /// The name of the reference.
    pub branch: Vec<u8>,
    /// The commit that the stacks were last based on.
    pub sha: Oid,
}

/// A head and its tree, computed together so that they cannot disagree.
#[derive(Clone, Copy, Debug, PartialEq, Eq, Structural)]
pub struct BranchHeadAndTree {
    pub head: Oid,
    pub tree: Oid,
}

/// The store of stacks: the only owner of each stack's head.
#[derive(Debug)]
pub struct VirtualBranchesState {
    pub default_target: Option<Target>,
    pub stacks: Vec<Stack>,
}

impl BranchHeadAndTree {
    /// The head is a commit of the database and the tree is its tree.
    pub open spec fn consistent(self, g: Objects) -> bool {
        g.has_commit(self.head) && g.commit(self.head).tree == self.tree
    }
}

/// The head and tree of a stack whose newest commit is `head`.
pub open spec fn head_and_tree_of(g: Objects, head: Oid) -> BranchHeadAndTree {
    BranchHeadAndTree { head, tree: g.commit(head).tree }
}

impl Stack {
    /// The head and the tree of the stack.
    pub open spec fn head_and_tree(self) -> BranchHeadAndTree {
        BranchHeadAndTree { head: self.head, tree: self.tree }
    }

    /// The stack with another head and tree, and everything else as it is.
    pub open spec fn with_head(self, update: BranchHeadAndTree) -> Stack {
        Stack { head: update.head, tree: update.tree, ..self }
    }

    /// The head of the stack.
    pub fn head(&self) -> (r: Oid)
        ensures
            r == self.head,
    {
        self.head
    }
}

/// The identifiers of a list of stacks, in their order.
pub open spec fn stack_ids(stacks: Seq<Stack>) -> Seq<StackId> {
    Seq::new(stacks.len(), |i: int| stacks[i].id)
}

impl VirtualBranchesState {
    /// No two stacks have the same identifier.
    pub open spec fn wf(&self) -> bool {
        forall|i: int, j: int|
            0 <= i < j < self.stacks@.len() ==> (#[trigger] self.stacks@[i]).id != (
            #[trigger] self.stacks@[j]).id
    }

    /// Every stack's head is a commit of the database, and its tree is the
    /// tree of that commit.
    pub open spec fn consistent(&self, g: Objects) -> bool {
        forall|i: int|
            0 <= i < self.stacks@.len() ==> (#[trigger] self.stacks@[i]).head_and_tree().consistent(
                g,
            )
    }

    /// Whether there is a stack with this identifier.
    pub open spec fn has(&self, id: StackId) -> bool {
        exists|i: int| 0 <= i < self.stacks@.len() && (#[trigger] self.stacks@[i]).id == id
    }

    /// The position of the stack with this identifier.
    pub open spec fn index_of(&self, id: StackId) -> int {
        choose|i: int| 0 <= i < self.stacks@.len() && (#[trigger] self.stacks@[i]).id == id
    }

    /// The stack with this identifier.
    pub open spec fn stack(&self, id: StackId) -> Stack {
        self.stacks@[self.index_of(id)]
    }

    /// A store without stacks and without a default target.
    pub fn new() -> (r: VirtualBranchesState)
        ensures
            r.wf(),
            r.stacks@.len() == 0,
            r.default_target is None,
    {
        VirtualBranchesState { default_target: None, stacks: Vec::new() }
    }

    /// The position of the stack with this identifier, if there is one.
    pub fn position(&self, id: StackId) -> (r: Option<usize>)
        requires
            self.wf(),
        ensures
            match r {
                Some(i) => self.has(id) && i == self.index_of(id) && i < self.stacks@.len()
                    && self.stacks@[i as int].id == id,
                None => !self.has(id),
            },
    {
        let mut i: usize = 0;
        while i < self.stacks.len()
            invariant
                self.wf(),
                i <= self.stacks@.len(),
                forall|k: int| 0 <= k < i ==> (#[trigger] self.stacks@[k]).id != id,
            decreases self.stacks@.len() - i,
        {
            if self.stacks[i].id.value == id.value {
                proof {
                    assert(self.stacks@[i as int].id == id);
                    let k = self.index_of(id);
                    if k < i {
                        assert(self.stacks@[k].id != self.stacks@[i as int].id);
                    }
                    if i < k {
                        assert(self.stacks@[i as int].id != self.stacks@[k].id);
                    }
                }
                return Some(i);
            }
            i += 1;
        }
        None
    }

    /// The stack with this identifier.
    pub fn get(&self, id: StackId) -> (r: Result<&Stack, Error>)
        requires
            self.wf(),
        ensures
            match r {
                Ok(s) => self.has(id) && *s == self.stack(id) && s.id == id,
                Err(e) => !self.has(id) && e == Error::NotFound,
            },
    {
        match self.position(id) {
            Some(i) => Ok(&self.stacks[i]),
            None => Err(Error::NotFound),
        }
    }

    /// The stack with this identifier, if there is one.
    pub fn try_branch(&self, id: StackId) -> (r: Option<&Stack>)
        requires
            self.wf(),
        ensures
            match r {
                Some(s) => self.has(id) && *s == self.stack(id) && s.id == id,
                None => !self.has(id),
            },
    {
        match self.position(id) {
            Some(i) => Some(&self.stacks[i]),
            None => None,
        }
    }

    /// The default target.
    pub fn get_default_target(&self) -> (r: Result<&Target, Error>)
        ensures
            match r {
                Ok(t) => self.default_target == Some(*t),
                Err(e) => self.default_target is None && e == Error::NotFound,
            },
    {
        match &self.default_target {
            Some(t) => Ok(t),
            None => Err(Error::NotFound),
        }
    }

    /// Sets the default target.
    pub fn set_default_target(&mut self, target: Target)
        ensures
            final(self).default_target == Some(target),
            final(self).stacks == old(self).stacks,
    {
        self.default_target = Some(target);
    }

    /// Adds a stack. A stack whose identifier is taken is not added.
    pub fn add_stack(&mut self, stack: Stack) -> (r: Result<(), Error>)
        requires
            old(self).wf(),
        ensures
            final(self).wf(),
            final(self).default_target == old(self).default_target,
            match r {
                Ok(_) => !old(self).has(stack.id) && final(self).stacks@ == old(
                    self,
                ).stacks@.push(stack),
                Err(e) => old(self).has(stack.id) && e == Error::NotFound && final(self).stacks
                    == old(self).stacks,
            },
    {
        match self.position(stack.id) {
            Some(_) => Err(Error::NotFound),
            None => {
                self.stacks.push(stack);
                Ok(())
            },
        }
    }

    /// Gives the stack a new head and tree. The two are written together; no
    /// other stack and nothing else of this stack changes.
    ///
    /// Only a head that is a commit of the database, together with the tree
    /// of that commit, is accepted: a stack's head and tree cannot be made to
    /// disagree.
    pub fn set_stack_head(
        &mut self,
        db: &ObjectDatabase,
        id: StackId,
        update: BranchHeadAndTree,
    ) -> (r: Result<(), Error>)
        requires
            old(self).wf(),
        ensures
            final(self).wf(),
            final(self).default_target == old(self).default_target,
            old(self).consistent(db@) ==> final(self).consistent(db@),
            match r {
                Ok(_) => old(self).has(id) && update.consistent(db@) && final(self).stacks@
                    == old(self).stacks@.update(
                    old(self).index_of(id),
                    old(self).stack(id).with_head(update),
                ),
                Err(e) => !(old(self).has(id) && update.consistent(db@)) && e == Error::NotFound
                    && final(self).stacks == old(self).stacks,
            },
    {
        if update.head.index >= db.commits.len() || db.commits[update.head.index].tree.index
            != update.tree.index {
            return Err(Error::NotFound);
        }
        match self.position(id) {
            Some(i) => {
                let mut stack = self.stacks.remove(i);
                stack.head = update.head;
                stack.tree = update.tree;
                self.stacks.insert(i, stack);
                proof {
                    assert(self.stacks@ =~= old(self).stacks@.update(
                        i as int,
                        old(self).stack(id).with_head(update),
                    ));
                    if old(self).consistent(db@) {
                        lemma_set_head_consistent(*old(self), *self, db@, i as int, update);
                    }
                }
                Ok(())
            },
            None => Err(Error::NotFound),
        }
    }

    /// Takes the stack's head off a commit that is being excised: where the
    /// head is `old_commit`, it becomes `new_parent`, the only parent of that
    /// commit. A commit without parents or with several cannot be excised.
    pub fn replace_head(
        &mut self,
        db: &ObjectDatabase,
        id: StackId,
        old_commit: Oid,
        new_parent: Oid,
    ) -> (r: Result<(), Error>)
        requires
            old(self).wf(),
            db.wf(),
        ensures
            final(self).wf(),
            final(self).default_target == old(self).default_target,
            old(self).consistent(db@) ==> final(self).consistent(db@),
            match r {
                Ok(_) => {
                    &&& old(self).has(id)
                    &&& db@.has_commit(old_commit)
                    &&& db@.commit(old_commit).parents == seq![new_parent]
                    &&& final(self).stacks@ == if old(self).stack(id).head == old_commit {
                        old(self).stacks@.update(
                            old(self).index_of(id),
                            old(self).stack(id).with_head(
                                BranchHeadAndTree {
                                    head: new_parent,
                                    tree: db@.commit(new_parent).tree,
                                },
                            ),
                        )
                    } else {
                        old(self).stacks@
                    }
                },
                Err(e) => {
                    &&& final(self).stacks == old(self).stacks
                    &&& e == if !old(self).has(id) || !db@.has_commit(old_commit) {
                        Error::NotFound
                    } else {
                        Error::NoSingleParent
                    }
                    &&& !old(self).has(id) || !db@.has_commit(old_commit) || db@.commit(
                        old_commit,
                    ).parents != seq![new_parent]
                },
            },
    {
        let at = match self.position(id) {
            Some(i) => i,
            None => {
                return Err(Error::NotFound);
            },
        };
        let commit = match db.find_commit(old_commit) {
            Ok(c) => c,
            Err(e) => {
                return Err(e);
            },
        };
        if commit.parents.len() != 1 || commit.parents[0].index != new_parent.index {
            proof {
                if commit@.parents == seq![new_parent] {
                    assert(commit@.parents[0] == new_parent);
                }
            }
            return Err(Error::NoSingleParent);
        }
        assert(commit@.parents =~= seq![new_parent]);
        assert(db@.commits[old_commit.index as int].parents[0].index < old_commit.index);
        if self.stacks[at].head.index == old_commit.index {
            let tree = db.commits[new_parent.index].tree;
            self.set_stack_head(db, id, BranchHeadAndTree { head: new_parent, tree })
        } else {
            Ok(())
        }
    }
}

/// Where no two stacks share an identifier, a stack is found at the one
/// position that holds its identifier.
pub proof fn lemma_index_of(state: VirtualBranchesState, id: StackId, at: int)
    requires
        state.wf(),
        0 <= at < state.stacks@.len(),
        state.stacks@[at].id == id,
    ensures
        state.has(id),
        state.index_of(id) == at,
        state.stack(id) == state.stacks@[at],
{
    let k = state.index_of(id);
    if k < at {
        assert(state.stacks@[k].id != state.stacks@[at].id);
    }
    if at < k {
        assert(state.stacks@[at].id != state.stacks@[k].id);
    }
}

/// Giving one stack a consistent head keeps all stacks consistent.
pub proof fn lemma_set_head_consistent(
    before: VirtualBranchesState,
    after: VirtualBranchesState,
    g: Objects,
    at: int,
    update: BranchHeadAndTree,
)
    requires
        before.consistent(g),
        0 <= at < before.stacks@.len(),
        update.consistent(g),
        after.stacks@ == before.stacks@.update(at, before.stacks@[at].with_head(update)),
    ensures
        after.consistent(g),
        stack_ids(after.stacks@) == stack_ids(before.stacks@),
{
    assert forall|i: int| 0 <= i < after.stacks@.len() implies (
    #[trigger] after.stacks@[i]).head_and_tree().consistent(g) by {
        if i != at {
            assert(after.stacks@[i] == before.stacks@[i]);
        }
    }
    assert(stack_ids(after.stacks@) =~= stack_ids(before.stacks@));
}

/// Stacks that are consistent with a database are consistent with every
/// database that holds its objects.
pub proof fn lemma_consistent_later(state: VirtualBranchesState, g: Objects, later: Objects)
    requires
        state.consistent(g),
        g.within(later),
    ensures
        state.consistent(later),
{
    assert forall|i: int| 0 <= i < state.stacks@.len() implies (
    #[trigger] state.stacks@[i]).head_and_tree().consistent(later) by {
        let s = state.stacks@[i];
        assert(s.head_and_tree().consistent(g));
        assert(later.commits[s.head.index as int] == g.commits[s.head.index as int]);
    }
}

} // verus!
