use branch_actions::branch_trees::compute_updated_branch_head;
use branch_actions::classifier::{list_virtual_branches, VirtualBranch};
use branch_actions::commit::{Commit, CommitExt, Header};
use branch_actions::error::Error;
use branch_actions::integration::update_workspace_commit;
use branch_actions::oid::Oid;
use branch_actions::repository::{Workspace, WorktreeWritePermission};
use branch_actions::reword::update_commit_message;
use branch_actions::stack::{Stack, StackId, Target};
use branch_actions::tree::Tree;

/// A repository with one commit on the remote's integration branch, and the
/// files that were written since the last commit.
struct Test {
    ctx: Workspace,
    pending: Vec<(Vec<u8>, Vec<u8>)>,
    changes: u32,
}

fn test_default() -> Test {
    let mut ctx = Workspace::new();
    let tree = ctx.repo.objects.insert_tree(Tree::new());
    let base = ctx
        .repo
        .objects
        .insert_commit(Commit {
            parents: vec![],
            tree,
            message: b"init".to_vec(),
            headers: vec![],
        })
        .unwrap();
    ctx.repo.references.set(b"refs/remotes/origin/master", base);
    Test { ctx, pending: vec![], changes: 0 }
}

impl Test {
    fn set_base_branch(&mut self, name: &str) {
        let sha = self.ctx.repo.find_reference(name.as_bytes()).unwrap();
        self.ctx.state.set_default_target(Target { branch: name.as_bytes().to_vec(), sha });
    }

    fn create_virtual_branch(&mut self) -> StackId {
        let id = StackId { value: self.ctx.state.stacks.len() as u64 + 1 };
        let sha = self.ctx.state.get_default_target().unwrap().sha;
        let at = compute_updated_branch_head(&self.ctx.repo.objects, sha).unwrap();
        self.ctx
            .state
            .add_stack(Stack {
                id,
                name: format!("stack {}", id.value).into_bytes(),
                head: at.head,
                tree: at.tree,
                allow_rebasing: true,
                upstream: None,
            })
            .unwrap();
        id
    }

    fn write(&mut self, path: &str, content: &str) {
        self.pending.push((path.as_bytes().to_vec(), content.as_bytes().to_vec()));
    }

    fn create_commit(&mut self, stack: StackId, message: &str) -> Oid {
        let head = self.ctx.state.get(stack).unwrap().head;
        let parent_tree = self.ctx.repo.find_commit(head).unwrap().tree;
        let mut tree = self.ctx.repo.objects.find_tree(parent_tree).unwrap().copy();
        for (path, content) in self.pending.drain(..) {
            tree.set(&path, &content);
        }
        let tree = self.ctx.repo.objects.insert_tree(tree);
        self.changes += 1;
        let commit = Commit {
            parents: vec![head],
            tree,
            message: message.as_bytes().to_vec(),
            headers: vec![Header {
                name: b"change-id".to_vec(),
                value: format!("change-{}", self.changes).into_bytes(),
            }],
        };
        let id = self.ctx.repo.objects.insert_commit(commit).unwrap();
        let update = compute_updated_branch_head(&self.ctx.repo.objects, id).unwrap();
        self.ctx.state.set_stack_head(&self.ctx.repo.objects, stack, update).unwrap();
        update_workspace_commit(&mut self.ctx, &mut WorktreeWritePermission::acquire());
        id
    }

    fn push_virtual_branch(&mut self, stack: StackId) {
        let name = format!("refs/remotes/origin/stack-{}", stack.value).into_bytes();
        let head = self.ctx.state.get(stack).unwrap().head;
        self.ctx.repo.references.set(&name, head);
        let at = self.ctx.state.position(stack).unwrap();
        self.ctx.state.stacks[at].upstream = Some(name);
    }

    fn set_allow_rebasing(&mut self, stack: StackId, allow: bool) {
        let at = self.ctx.state.position(stack).unwrap();
        self.ctx.state.stacks[at].allow_rebasing = allow;
    }

    fn update_commit_message(
        &mut self,
        stack: StackId,
        commit: Oid,
        message: &str,
    ) -> Result<(), Error> {
        let mut perm = WorktreeWritePermission::acquire();
        update_commit_message(&mut self.ctx, stack, commit, message, &mut perm)
    }

    fn branch(&self, stack: StackId) -> VirtualBranch {
        list_virtual_branches(&self.ctx).unwrap().into_iter().find(|b| b.id == stack).unwrap()
    }
}

fn descriptions(branch: &VirtualBranch) -> Vec<String> {
    branch.commits.iter().map(|c| String::from_utf8(c.description.clone()).unwrap()).collect()
}

#[test]
fn head() {
    let mut test = test_default();
    test.set_base_branch("refs/remotes/origin/master");
    let branch_id = test.create_virtual_branch();

    test.write("file one.txt", "");
    test.create_commit(branch_id, "commit one");

    test.write("file two.txt", "");
    test.create_commit(branch_id, "commit two");

    test.write("file three.txt", "");
    let commit_three_oid = test.create_commit(branch_id, "commit three");
    let before_change_id = test.ctx.repo.find_commit(commit_three_oid).unwrap().change_id();

    test.update_commit_message(branch_id, commit_three_oid, "commit three updated").unwrap();

    let branch = test.branch(branch_id);
    let descriptions = descriptions(&branch);

    // get the last commit
    let commit = test.ctx.repo.find_commit(branch.head).unwrap();

    // make sure the SHA changed, but the change ID did not
    assert_ne!(commit_three_oid, branch.head);
    assert_eq!(before_change_id, commit.change_id());

    assert_eq!(descriptions, vec!["commit three updated", "commit two", "commit one"]);
}

#[test]
fn middle() {
    let mut test = test_default();
    test.set_base_branch("refs/remotes/origin/master");
    let branch_id = test.create_virtual_branch();

    test.write("file one.txt", "");
    test.create_commit(branch_id, "commit one");

    test.write("file two.txt", "");
    let commit_two_oid = test.create_commit(branch_id, "commit two");

    test.write("file three.txt", "");
    test.create_commit(branch_id, "commit three");

    test.update_commit_message(branch_id, commit_two_oid, "commit two updated").unwrap();

    let branch = test.branch(branch_id);
    assert_eq!(descriptions(&branch), vec!["commit three", "commit two updated", "commit one"]);
}

#[test]
fn forcepush_allowed() {
    let mut test = test_default();
    test.set_base_branch("refs/remotes/origin/master");
    let branch_id = test.create_virtual_branch();

    test.write("file one.txt", "");
    let commit_one_oid = test.create_commit(branch_id, "commit one");

    test.push_virtual_branch(branch_id);

    test.update_commit_message(branch_id, commit_one_oid, "commit one updated").unwrap();

    let branch = test.branch(branch_id);
    assert_eq!(descriptions(&branch), vec!["commit one updated"]);
    assert!(branch.requires_force);
}

#[test]
fn forcepush_forbidden() {
    let mut test = test_default();
    test.set_base_branch("refs/remotes/origin/master");
    let branch_id = test.create_virtual_branch();
    test.set_allow_rebasing(branch_id, false);

    test.write("file one.txt", "");
    let commit_one_oid = test.create_commit(branch_id, "commit one");

    test.push_virtual_branch(branch_id);

    assert_eq!(
        test.update_commit_message(branch_id, commit_one_oid, "commit one updated")
            .unwrap_err()
            .to_string(),
        "force push not allowed"
    );
}

#[test]
fn root() {
    let mut test = test_default();
    test.set_base_branch("refs/remotes/origin/master");
    let branch_id = test.create_virtual_branch();

    test.write("file one.txt", "");
    let commit_one_oid = test.create_commit(branch_id, "commit one");

    test.write("file two.txt", "");
    test.create_commit(branch_id, "commit two");

    test.write("file three.txt", "");
    test.create_commit(branch_id, "commit three");

    test.update_commit_message(branch_id, commit_one_oid, "commit one updated").unwrap();

    let branch = test.branch(branch_id);
    assert_eq!(descriptions(&branch), vec!["commit three", "commit two", "commit one updated"]);
}

#[test]
fn empty() {
    let mut test = test_default();
    test.set_base_branch("refs/remotes/origin/master");
    let branch_id = test.create_virtual_branch();

    test.write("file one.txt", "");
    let commit_one_oid = test.create_commit(branch_id, "commit one");

    assert_eq!(
        test.update_commit_message(branch_id, commit_one_oid, "").unwrap_err().to_string(),
        "commit message can not be empty"
    );
}

#[test]
fn empty_message_changes_nothing() {
    let mut test = test_default();
    test.set_base_branch("refs/remotes/origin/master");
    let branch_id = test.create_virtual_branch();
    test.write("file one.txt", "");
    let commit_one_oid = test.create_commit(branch_id, "commit one");
    let commits = test.ctx.repo.objects.commits.len();
    let trees = test.ctx.repo.objects.trees.len();
    let head = test.ctx.repo.head;

    assert_eq!(
        test.update_commit_message(branch_id, commit_one_oid, ""),
        Err(Error::EmptyCommitMessage)
    );

    assert_eq!(test.ctx.repo.objects.commits.len(), commits);
    assert_eq!(test.ctx.repo.objects.trees.len(), trees);
    assert_eq!(test.ctx.repo.head, head);
    assert_eq!(test.ctx.state.get(branch_id).unwrap().head, commit_one_oid);
    assert_eq!(descriptions(&test.branch(branch_id)), vec!["commit one"]);
}

#[test]
fn rewording_keeps_what_is_below_and_rewrites_what_is_above() {
    let mut test = test_default();
    test.set_base_branch("refs/remotes/origin/master");
    let branch_id = test.create_virtual_branch();
    test.write("file one.txt", "1");
    let one = test.create_commit(branch_id, "commit one");
    test.write("file two.txt", "2");
    let two = test.create_commit(branch_id, "commit two");
    test.write("file three.txt", "3");
    let three = test.create_commit(branch_id, "commit three");
    let before = test.branch(branch_id);

    test.update_commit_message(branch_id, two, "commit two updated").unwrap();

    let after = test.branch(branch_id);
    assert_eq!(after.commits.len(), 3);
    // below: the same commit
    assert_eq!(after.commits[2].id, one);
    // the commit itself and what is above: other commits, same change identities
    assert_ne!(after.commits[1].id, two);
    assert_ne!(after.commits[0].id, three);
    for i in 0..3 {
        assert_eq!(after.commits[i].change_id, before.commits[i].change_id);
    }
    // only the message of the reworded commit changed
    let old = test.ctx.repo.find_commit(two).unwrap();
    let new = test.ctx.repo.find_commit(after.commits[1].id).unwrap();
    assert_eq!(new.tree, old.tree);
    assert_eq!(new.parents, old.parents);
    assert_eq!(new.message, b"commit two updated".to_vec());
    // the commit above has the reworded commit as its parent and keeps its files
    let top = test.ctx.repo.find_commit(after.head).unwrap();
    assert_eq!(top.parents, vec![after.commits[1].id]);
    assert_eq!(top.tree, test.ctx.repo.find_commit(three).unwrap().tree);
    assert!(!top.is_conflicted());
}

#[test]
fn rewording_to_the_same_message_changes_no_commit() {
    let mut test = test_default();
    test.set_base_branch("refs/remotes/origin/master");
    let branch_id = test.create_virtual_branch();
    test.write("file one.txt", "1");
    let one = test.create_commit(branch_id, "commit one");
    test.write("file two.txt", "2");
    let two = test.create_commit(branch_id, "commit two");

    test.update_commit_message(branch_id, one, "commit one").unwrap();

    let after = test.branch(branch_id);
    assert_eq!(after.commits[0].id, two);
    assert_eq!(after.commits[1].id, one);
}

#[test]
fn unpushed_commit_of_a_pushed_stack_may_be_reworded() {
    let mut test = test_default();
    test.set_base_branch("refs/remotes/origin/master");
    let branch_id = test.create_virtual_branch();
    test.set_allow_rebasing(branch_id, false);
    test.write("file one.txt", "");
    let one = test.create_commit(branch_id, "commit one");
    test.push_virtual_branch(branch_id);
    test.write("file two.txt", "");
    let two = test.create_commit(branch_id, "commit two");

    test.update_commit_message(branch_id, two, "commit two updated").unwrap();
    let branch = test.branch(branch_id);
    assert_eq!(descriptions(&branch), vec!["commit two updated", "commit one"]);
    assert!(!branch.requires_force);

    assert_eq!(
        test.update_commit_message(branch_id, one, "commit one updated"),
        Err(Error::ForcePushRequiredButDisallowed)
    );
}

#[test]
fn unpushed_stack_accepts_the_update_and_requires_no_force() {
    let mut test = test_default();
    test.set_base_branch("refs/remotes/origin/master");
    let branch_id = test.create_virtual_branch();
    test.set_allow_rebasing(branch_id, false);
    test.write("file one.txt", "");
    let one = test.create_commit(branch_id, "commit one");

    test.update_commit_message(branch_id, one, "commit one updated").unwrap();

    let branch = test.branch(branch_id);
    assert_eq!(descriptions(&branch), vec!["commit one updated"]);
    assert!(!branch.requires_force);
}

#[test]
fn rewording_fails_on_what_does_not_resolve() {
    let mut test = test_default();
    // no default target yet
    assert_eq!(
        test.update_commit_message(StackId { value: 1 }, Oid::new(0), "m"),
        Err(Error::NotFound)
    );
    test.set_base_branch("refs/remotes/origin/master");
    let branch_id = test.create_virtual_branch();
    test.write("file one.txt", "");
    let one = test.create_commit(branch_id, "commit one");
    // no such stack
    assert_eq!(
        test.update_commit_message(StackId { value: 99 }, one, "m"),
        Err(Error::NotFound)
    );
    // the base commit is not a commit of the stack
    assert_eq!(test.update_commit_message(branch_id, Oid::new(0), "m"), Err(Error::NotFound));
    // no such commit
    assert_eq!(test.update_commit_message(branch_id, Oid::new(999), "m"), Err(Error::NotFound));
    // unresolved conflicts in the working directory
    test.ctx.repo.conflicts.mark(b"file one.txt");
    assert_eq!(
        test.update_commit_message(branch_id, one, "m"),
        Err(Error::UnresolvedConflicts)
    );
    test.ctx.repo.conflicts.resolve(b"file one.txt");
    assert_eq!(test.update_commit_message(branch_id, one, "m"), Ok(()));
}
