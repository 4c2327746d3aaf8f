use branch_actions::branch_trees::compute_updated_branch_head;
use branch_actions::classifier::{
    classify_commits, list_virtual_branches, CommitStatus, VirtualBranch,
};
use branch_actions::commit::{Commit, Header};
use branch_actions::integration::update_workspace_commit;
use branch_actions::merge::overlay;
use branch_actions::oid::Oid;
use branch_actions::repository::{Workspace, WorktreeWritePermission};
use branch_actions::stack::{Stack, StackId, Target};
use branch_actions::tree::Tree;

struct Test {
    ctx: Workspace,
    pending: Vec<(Vec<u8>, Vec<u8>)>,
    changes: u32,
}

fn test_default() -> Test {
    let mut ctx = Workspace::new();
    let tree = ctx.repo.objects.insert_tree(Tree::new());
    let base = ctx
        .repo
        .objects
        .insert_commit(Commit {
            parents: vec![],
            tree,
            message: b"init".to_vec(),
            headers: vec![],
        })
        .unwrap();
    ctx.repo.references.set(b"refs/remotes/origin/master", base);
    Test { ctx, pending: vec![], changes: 0 }
}

impl Test {
    fn set_base_branch(&mut self, name: &str) {
        let sha = self.ctx.repo.find_reference(name.as_bytes()).unwrap();
        self.ctx.state.set_default_target(Target { branch: name.as_bytes().to_vec(), sha });
    }

    fn create_virtual_branch(&mut self) -> StackId {
        let id = StackId { value: self.ctx.state.stacks.len() as u64 + 1 };
        let sha = self.ctx.state.get_default_target().unwrap().sha;
        let at = compute_updated_branch_head(&self.ctx.repo.objects, sha).unwrap();
        self.ctx
            .state
            .add_stack(Stack {
                id,
                name: format!("stack {}", id.value).into_bytes(),
                head: at.head,
                tree: at.tree,
                allow_rebasing: true,
                upstream: None,
            })
            .unwrap();
        id
    }

    fn write(&mut self, path: &str, content: &str) {
        self.pending.push((path.as_bytes().to_vec(), content.as_bytes().to_vec()));
    }

    fn create_commit(&mut self, stack: StackId, message: &str) -> Oid {
        let head = self.ctx.state.get(stack).unwrap().head;
        let parent_tree = self.ctx.repo.find_commit(head).unwrap().tree;
        let mut tree = self.ctx.repo.objects.find_tree(parent_tree).unwrap().copy();
        for (path, content) in self.pending.drain(..) {
            tree.set(&path, &content);
        }
        let tree = self.ctx.repo.objects.insert_tree(tree);
        self.changes += 1;
        let commit = Commit {
            parents: vec![head],
            tree,
            message: message.as_bytes().to_vec(),
            headers: vec![Header {
                name: b"change-id".to_vec(),
                value: format!("change-{}", self.changes).into_bytes(),
            }],
        };
        let id = self.ctx.repo.objects.insert_commit(commit).unwrap();
        let update = compute_updated_branch_head(&self.ctx.repo.objects, id).unwrap();
        self.ctx.state.set_stack_head(&self.ctx.repo.objects, stack, update).unwrap();
        update_workspace_commit(&mut self.ctx, &mut WorktreeWritePermission::acquire());
        id
    }

    fn push_virtual_branch(&mut self, stack: StackId) {
        let name = format!("refs/remotes/origin/stack-{}", stack.value).into_bytes();
        let head = self.ctx.state.get(stack).unwrap().head;
        self.ctx.repo.references.set(&name, head);
        let at = self.ctx.state.position(stack).unwrap();
        self.ctx.state.stacks[at].upstream = Some(name);
    }

    /// Merges what a reference stands for into the remote's integration
    /// branch, as the remote would.
    fn merge(&mut self, upstream: Oid) {
        let master = self.ctx.repo.find_reference(b"refs/remotes/origin/master").unwrap();
        let ours = self.ctx.repo.find_commit(master).unwrap().tree;
        let theirs = self.ctx.repo.find_commit(upstream).unwrap().tree;
        let tree = overlay(
            self.ctx.repo.objects.find_tree(ours).unwrap(),
            self.ctx.repo.objects.find_tree(theirs).unwrap(),
        );
        let tree = self.ctx.repo.objects.insert_tree(tree);
        let merge = self
            .ctx
            .repo
            .objects
            .insert_commit(Commit {
                parents: vec![master, upstream],
                tree,
                message: b"merge".to_vec(),
                headers: vec![],
            })
            .unwrap();
        self.ctx.repo.references.set(b"refs/remotes/origin/master", merge);
    }

    /// In this model the remote's references are local already.
    fn fetch(&mut self) {}

    fn list_virtual_branches(&self) -> Vec<VirtualBranch> {
        list_virtual_branches(&self.ctx).unwrap()
    }
}

#[test]
fn detect_upstream_commits() {
    let mut test = test_default();
    test.set_base_branch("refs/remotes/origin/master");
    let branch1_id = test.create_virtual_branch();

    // create first commit
    test.write("file.txt", "content");
    let oid1 = test.create_commit(branch1_id, "commit");

    // create second commit
    test.write("file.txt", "content2");
    let oid2 = test.create_commit(branch1_id, "commit");

    // push
    test.push_virtual_branch(branch1_id);

    // create third commit
    test.write("file.txt", "content3");
    let oid3 = test.create_commit(branch1_id, "commit");

    {
        // should correctly detect pushed commits
        let branches = test.list_virtual_branches();
        assert_eq!(branches.len(), 1);
        assert_eq!(branches[0].id, branch1_id);
        assert_eq!(branches[0].commits.len(), 3);
        assert_eq!(branches[0].commits[0].id, oid3);
        assert!(!branches[0].commits[0].is_remote);
        assert_eq!(branches[0].commits[1].id, oid2);
        assert!(branches[0].commits[1].is_remote);
        assert_eq!(branches[0].commits[2].id, oid1);
        assert!(branches[0].commits[2].is_remote);
    }
}

#[test]
fn detect_integrated_commits() {
    let mut test = test_default();
    test.set_base_branch("refs/remotes/origin/master");
    let branch1_id = test.create_virtual_branch();

    // create first commit
    test.write("file.txt", "content");
    let oid1 = test.create_commit(branch1_id, "commit");

    // create second commit
    test.write("file.txt", "content2");
    let oid2 = test.create_commit(branch1_id, "commit");

    // push
    test.push_virtual_branch(branch1_id);

    {
        // merge branch upstream
        let branch = test
            .list_virtual_branches()
            .into_iter()
            .find(|b| b.id == branch1_id)
            .unwrap();
        test.merge(branch.upstream.unwrap());
        test.fetch();
    }

    // create third commit
    test.write("file.txt", "content3");
    let oid3 = test.create_commit(branch1_id, "commit");

    {
        // should correctly detect pushed commits
        let branches = test.list_virtual_branches();
        assert_eq!(branches.len(), 1);
        assert_eq!(branches[0].id, branch1_id);
        assert_eq!(branches[0].commits.len(), 3);
        assert_eq!(branches[0].commits[0].id, oid3);
        assert!(!branches[0].commits[0].is_integrated);
        assert_eq!(branches[0].commits[1].id, oid2);
        assert!(branches[0].commits[1].is_integrated);
        assert_eq!(branches[0].commits[2].id, oid1);
        assert!(branches[0].commits[2].is_integrated);
    }
}

#[test]
fn pushed_commit_is_remote_until_the_target_has_it() {
    let mut test = test_default();
    test.set_base_branch("refs/remotes/origin/master");
    let stack = test.create_virtual_branch();
    test.write("file.txt", "content");
    let oid1 = test.create_commit(stack, "commit");
    test.push_virtual_branch(stack);

    let before = test.list_virtual_branches();
    assert_eq!(before[0].commits[0].status, CommitStatus::Remote);
    assert!(before[0].commits[0].is_remote);
    assert!(!before[0].commits[0].is_integrated);

    test.merge(before[0].upstream.unwrap());
    test.fetch();

    let after = test.list_virtual_branches();
    assert_eq!(after[0].commits[0].id, oid1);
    assert_eq!(after[0].commits[0].change_id, before[0].commits[0].change_id);
    assert_eq!(after[0].commits[0].status, CommitStatus::Integrated);
    assert!(after[0].commits[0].is_integrated);
    assert!(!after[0].commits[0].is_remote);
}

#[test]
fn commits_are_classified_each_by_itself() {
    let mut test = test_default();
    test.set_base_branch("refs/remotes/origin/master");
    let stack = test.create_virtual_branch();
    test.write("a.txt", "a");
    let oid1 = test.create_commit(stack, "one");
    test.write("b.txt", "b");
    let oid2 = test.create_commit(stack, "two");
    test.write("c.txt", "c");
    let oid3 = test.create_commit(stack, "three");
    let master = test.ctx.repo.find_reference(b"refs/remotes/origin/master").unwrap();

    // nothing was pushed
    assert_eq!(
        classify_commits(&test.ctx.repo.objects, master, None, &vec![oid3, oid2, oid1]),
        Ok(vec![CommitStatus::LocalOnly, CommitStatus::LocalOnly, CommitStatus::LocalOnly])
    );
    // what was pushed ends at the second commit
    assert_eq!(
        classify_commits(&test.ctx.repo.objects, master, Some(oid2), &vec![oid3, oid2, oid1]),
        Ok(vec![CommitStatus::LocalOnly, CommitStatus::Remote, CommitStatus::Remote])
    );
    // the target holds the first commit
    assert_eq!(
        classify_commits(&test.ctx.repo.objects, oid1, Some(oid2), &vec![oid3, oid2, oid1]),
        Ok(vec![CommitStatus::LocalOnly, CommitStatus::Remote, CommitStatus::Integrated])
    );
    // a commit that does not resolve
    assert_eq!(
        classify_commits(&test.ctx.repo.objects, master, None, &vec![Oid::new(500)]),
        Err(branch_actions::error::Error::NotFound)
    );
}

#[test]
fn a_rewritten_commit_is_found_by_its_change_identity() {
    let mut test = test_default();
    test.set_base_branch("refs/remotes/origin/master");
    let stack = test.create_virtual_branch();
    test.write("a.txt", "a");
    let one = test.create_commit(stack, "one");
    test.push_virtual_branch(stack);
    let mut perm = WorktreeWritePermission::acquire();
    branch_actions::reword::update_commit_message(&mut test.ctx, stack, one, "one again", &mut perm)
        .unwrap();

    let branches = test.list_virtual_branches();
    assert_ne!(branches[0].commits[0].id, one);
    // another commit, but the remote has a commit of the same change identity
    assert_eq!(branches[0].commits[0].status, CommitStatus::Remote);
    assert!(branches[0].requires_force);
}

#[test]
fn listing_needs_a_default_target() {
    let test = test_default();
    assert!(matches!(
        list_virtual_branches(&test.ctx),
        Err(branch_actions::error::Error::NotFound)
    ));
}
