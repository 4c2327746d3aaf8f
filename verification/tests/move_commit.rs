use branch_actions::branch_trees::compute_updated_branch_head;
use branch_actions::classifier::{list_virtual_branches, VirtualBranch};
use branch_actions::commit::{Commit, CommitExt, Header};
use branch_actions::error::Error;
use branch_actions::integration::update_workspace_commit;
use branch_actions::move_commits::{
    filter_out_commit, move_commit, move_commit_to_destination_stack,
    take_commit_from_source_stack,
};
use branch_actions::oid::Oid;
use branch_actions::repository::{Workspace, WorktreeWritePermission};
use branch_actions::stack::{Stack, StackId, Target};
use branch_actions::tree::Tree;

struct Test {
    ctx: Workspace,
    base: Oid,
    pending: Vec<(Vec<u8>, Vec<u8>)>,
    changes: u32,
}

fn test_default() -> Test {
    let mut ctx = Workspace::new();
    let tree = ctx.repo.objects.insert_tree(Tree::new());
    let base = ctx
        .repo
        .objects
        .insert_commit(Commit {
            parents: vec![],
            tree,
            message: b"init".to_vec(),
            headers: vec![],
        })
        .unwrap();
    ctx.repo.references.set(b"refs/remotes/origin/master", base);
    ctx.state.set_default_target(Target {
        branch: b"refs/remotes/origin/master".to_vec(),
        sha: base,
    });
    Test { ctx, base, pending: vec![], changes: 0 }
}

impl Test {
    fn create_virtual_branch(&mut self) -> StackId {
        let id = StackId { value: self.ctx.state.stacks.len() as u64 + 1 };
        let at = compute_updated_branch_head(&self.ctx.repo.objects, self.base).unwrap();
        self.ctx
            .state
            .add_stack(Stack {
                id,
                name: format!("stack {}", id.value).into_bytes(),
                head: at.head,
                tree: at.tree,
                allow_rebasing: true,
                upstream: None,
            })
            .unwrap();
        id
    }

    fn write(&mut self, path: &str, content: &str) {
        self.pending.push((path.as_bytes().to_vec(), content.as_bytes().to_vec()));
    }

    fn create_commit(&mut self, stack: StackId, message: &str) -> Oid {
        let head = self.ctx.state.get(stack).unwrap().head;
        let parent_tree = self.ctx.repo.find_commit(head).unwrap().tree;
        let mut tree = self.ctx.repo.objects.find_tree(parent_tree).unwrap().copy();
        for (path, content) in self.pending.drain(..) {
            tree.set(&path, &content);
        }
        let tree = self.ctx.repo.objects.insert_tree(tree);
        self.changes += 1;
        let commit = Commit {
            parents: vec![head],
            tree,
            message: message.as_bytes().to_vec(),
            headers: vec![Header {
                name: b"change-id".to_vec(),
                value: format!("change-{}", self.changes).into_bytes(),
            }],
        };
        let id = self.ctx.repo.objects.insert_commit(commit).unwrap();
        let update = compute_updated_branch_head(&self.ctx.repo.objects, id).unwrap();
        self.ctx.state.set_stack_head(&self.ctx.repo.objects, stack, update).unwrap();
        update_workspace_commit(&mut self.ctx, &mut WorktreeWritePermission::acquire());
        id
    }

    fn move_commit(&mut self, to: StackId, commit: Oid, from: StackId) -> Result<(), Error> {
        let mut perm = WorktreeWritePermission::acquire();
        move_commit(&mut self.ctx, to, commit, &mut perm, from)
    }

    fn branch(&self, stack: StackId) -> VirtualBranch {
        list_virtual_branches(&self.ctx).unwrap().into_iter().find(|b| b.id == stack).unwrap()
    }

    fn commit(&self, id: Oid) -> &Commit {
        self.ctx.repo.find_commit(id).unwrap()
    }

    fn file(&self, commit: Oid, path: &str) -> Option<String> {
        let tree = self.commit(commit).tree;
        self.ctx
            .repo
            .objects
            .find_tree(tree)
            .unwrap()
            .get(path.as_bytes())
            .map(|c| String::from_utf8(c.clone()).unwrap())
    }
}

fn descriptions(branch: &VirtualBranch) -> Vec<String> {
    branch.commits.iter().map(|c| String::from_utf8(c.description.clone()).unwrap()).collect()
}

#[test]
fn moving_the_middle_commit_to_an_empty_stack() {
    let mut test = test_default();
    let source = test.create_virtual_branch();
    let destination = test.create_virtual_branch();
    test.write("file one.txt", "1");
    let one = test.create_commit(source, "one");
    test.write("file two.txt", "2");
    let two = test.create_commit(source, "two");
    test.write("file three.txt", "3");
    let three = test.create_commit(source, "three");
    let two_change_id = test.commit(two).change_id();
    let three_change_id = test.commit(three).change_id();

    test.move_commit(destination, two, source).unwrap();

    // source = [three', one]: three rewritten, one unchanged
    let src = test.branch(source);
    assert_eq!(descriptions(&src), vec!["three", "one"]);
    assert_eq!(src.commits[1].id, one);
    assert_ne!(src.commits[0].id, three);
    assert_ne!(src.commits[0].id, two);
    assert_eq!(src.commits[0].change_id, three_change_id);
    assert_eq!(test.commit(src.head).parents, vec![one]);
    assert_eq!(test.file(src.head, "file one.txt"), Some("1".to_string()));
    assert_eq!(test.file(src.head, "file two.txt"), None);
    assert_eq!(test.file(src.head, "file three.txt"), Some("3".to_string()));
    assert!(!test.commit(src.head).is_conflicted());

    // destination = [two']: two's change identity, another identity
    let dst = test.branch(destination);
    assert_eq!(descriptions(&dst), vec!["two"]);
    assert_ne!(dst.commits[0].id, two);
    assert_eq!(dst.commits[0].change_id, two_change_id);
    assert_eq!(dst.commits[0].change_id, Some("change-2".to_string()));
    assert_eq!(test.commit(dst.head).parents, vec![test.base]);
    assert_eq!(test.file(dst.head, "file two.txt"), Some("2".to_string()));
    assert_eq!(test.file(dst.head, "file one.txt"), None);

    // head and tree of each stack agree
    assert_eq!(src.tree, test.commit(src.head).tree);
    assert_eq!(dst.tree, test.commit(dst.head).tree);
}

#[test]
fn moving_to_a_stack_with_commits_puts_the_commit_on_top() {
    let mut test = test_default();
    let source = test.create_virtual_branch();
    let destination = test.create_virtual_branch();
    test.write("a.txt", "a");
    let a = test.create_commit(source, "a");
    test.write("b.txt", "b");
    let b = test.create_commit(source, "b");
    test.write("x.txt", "x");
    let x = test.create_commit(destination, "x");
    test.write("y.txt", "y");
    let y = test.create_commit(destination, "y");

    test.move_commit(destination, b, source).unwrap();

    let src = test.branch(source);
    assert_eq!(src.commits.iter().map(|c| c.id).collect::<Vec<_>>(), vec![a]);
    let dst = test.branch(destination);
    assert_eq!(descriptions(&dst), vec!["b", "y", "x"]);
    assert_eq!(dst.commits[1].id, y);
    assert_eq!(dst.commits[2].id, x);
    assert_ne!(dst.commits[0].id, b);
    assert_eq!(test.commit(dst.head).parents, vec![y]);
    assert_eq!(dst.commits[0].change_id, test.commit(b).change_id());
    assert_eq!(test.file(dst.head, "b.txt"), Some("b".to_string()));
    assert_eq!(test.file(dst.head, "y.txt"), Some("y".to_string()));
    assert_eq!(test.file(dst.head, "a.txt"), None);
}

#[test]
fn a_move_rebuilds_the_workspace_commit_and_the_working_directory() {
    let mut test = test_default();
    let source = test.create_virtual_branch();
    let destination = test.create_virtual_branch();
    test.write("shared.txt", "from source");
    test.create_commit(source, "one");
    test.write("two.txt", "2");
    let two = test.create_commit(source, "two");
    test.write("shared.txt", "from destination");
    test.create_commit(destination, "other");

    test.move_commit(destination, two, source).unwrap();

    let src = test.branch(source);
    let dst = test.branch(destination);
    let workspace = test.ctx.repo.head.unwrap();
    // parents: the heads of the stacks, in the order of the stacks
    assert_eq!(test.commit(workspace).parents, vec![src.head, dst.head]);
    assert_eq!(test.commit(workspace).message, b"Workspace commit".to_vec());
    // the later stack wins where both have a path
    assert_eq!(test.file(workspace, "shared.txt"), Some("from destination".to_string()));
    assert_eq!(test.file(workspace, "two.txt"), Some("2".to_string()));
    // the working directory holds the files of the workspace commit
    let tree = test.commit(workspace).tree;
    assert!(test.ctx.repo.worktree.same(test.ctx.repo.objects.find_tree(tree).unwrap()));
}

#[test]
fn a_conflicted_replay_is_a_commit_with_a_marker() {
    let mut test = test_default();
    let source = test.create_virtual_branch();
    let destination = test.create_virtual_branch();
    test.write("file.txt", "1\n");
    let one = test.create_commit(source, "one");
    test.write("file.txt", "2\n");
    let two = test.create_commit(source, "two");
    test.write("file.txt", "3\n");
    test.create_commit(source, "three");
    test.write("other.txt", "4\n");
    test.create_commit(source, "four");

    test.move_commit(destination, two, source).unwrap();

    let src = test.branch(source);
    assert_eq!(descriptions(&src), vec!["four", "three", "one"]);
    assert_eq!(src.commits[2].id, one);
    // three changed what two had written: replayed onto one it conflicts
    let three = test.commit(src.commits[1].id);
    assert!(three.is_conflicted());
    assert_eq!(three.conflicted_files(), Some(1));
    assert_eq!(three.header_field_bytes("conflicted"), Some(&b"1".to_vec()));
    assert_eq!(
        test.file(src.commits[1].id, "file.txt"),
        Some("<<<<<<< ours\n1\n=======\n3\n>>>>>>> theirs\n".to_string())
    );
    // the replay went on: four stands on the conflicted commit, without a conflict of its own
    let four = test.commit(src.head);
    assert_eq!(four.parents, vec![src.commits[1].id]);
    assert!(!four.is_conflicted());
    assert_eq!(four.conflicted_files(), None);
    assert_eq!(test.file(src.head, "other.txt"), Some("4\n".to_string()));
    assert_eq!(
        test.file(src.head, "file.txt"),
        Some("<<<<<<< ours\n1\n=======\n3\n>>>>>>> theirs\n".to_string())
    );
    // the tree of the stack is the tree of its head
    assert_eq!(src.tree, four.tree);

    // two changed a file that the destination does not have
    let dst = test.branch(destination);
    let moved = test.commit(dst.head);
    assert!(moved.is_conflicted());
    assert_eq!(moved.conflicted_files(), Some(1));
    assert_eq!(
        test.file(dst.head, "file.txt"),
        Some("<<<<<<< ours\n=======\n2\n>>>>>>> theirs\n".to_string())
    );
    assert_eq!(moved.change_id(), test.commit(two).change_id());
}

#[test]
fn moving_a_commit_onto_its_own_parent_keeps_its_identity() {
    let mut test = test_default();
    let source = test.create_virtual_branch();
    let destination = test.create_virtual_branch();
    test.write("a.txt", "a");
    let a = test.create_commit(source, "a");

    test.move_commit(destination, a, source).unwrap();

    assert_eq!(test.branch(source).commits.len(), 0);
    assert_eq!(test.branch(source).head, test.base);
    assert_eq!(test.branch(destination).head, a);
}

#[test]
fn moving_within_one_stack_puts_the_commit_on_top() {
    let mut test = test_default();
    let stack = test.create_virtual_branch();
    test.write("a.txt", "a");
    let a = test.create_commit(stack, "a");
    test.write("b.txt", "b");
    test.create_commit(stack, "b");

    test.move_commit(stack, a, stack).unwrap();

    assert_eq!(descriptions(&test.branch(stack)), vec!["a", "b"]);
}

#[test]
fn a_move_fails_before_it_changes_anything() {
    let mut test = test_default();
    let source = test.create_virtual_branch();
    let destination = test.create_virtual_branch();
    test.write("a.txt", "a");
    let a = test.create_commit(source, "a");
    test.write("x.txt", "x");
    let x = test.create_commit(destination, "x");
    let commits = test.ctx.repo.objects.commits.len();
    let head = test.ctx.repo.head;

    // no such stack
    assert_eq!(test.move_commit(StackId { value: 9 }, a, source), Err(Error::NotFound));
    assert_eq!(test.move_commit(destination, a, StackId { value: 9 }), Err(Error::NotFound));
    // no such commit
    assert_eq!(test.move_commit(destination, Oid::new(999), source), Err(Error::NotFound));
    // the commit is not a commit of the source stack
    assert_eq!(test.move_commit(destination, x, source), Err(Error::NotFound));
    assert_eq!(test.move_commit(destination, test.base, source), Err(Error::NotFound));
    // unresolved conflicts in the working directory
    test.ctx.repo.conflicts.mark(b"a.txt");
    assert_eq!(test.move_commit(destination, a, source), Err(Error::UnresolvedConflicts));
    test.ctx.repo.conflicts.resolve(b"a.txt");

    assert_eq!(test.ctx.repo.objects.commits.len(), commits);
    assert_eq!(test.ctx.repo.head, head);
    assert_eq!(test.branch(source).head, a);
    assert_eq!(test.branch(destination).head, x);

    assert_eq!(test.move_commit(destination, a, source), Ok(()));
}

#[test]
fn a_move_needs_a_default_target_that_resolves() {
    let mut test = test_default();
    let source = test.create_virtual_branch();
    let destination = test.create_virtual_branch();
    test.write("a.txt", "a");
    let a = test.create_commit(source, "a");
    test.ctx.state.set_default_target(Target { branch: b"refs/remotes/origin/gone".to_vec(), sha: test.base });
    assert_eq!(test.move_commit(destination, a, source), Err(Error::NotFound));
    test.ctx.state.default_target = None;
    assert_eq!(test.move_commit(destination, a, source), Err(Error::NotFound));
}

#[test]
fn a_merge_commit_cannot_be_moved() {
    let mut test = test_default();
    let source = test.create_virtual_branch();
    let destination = test.create_virtual_branch();
    test.write("a.txt", "a");
    let a = test.create_commit(source, "a");
    test.write("x.txt", "x");
    let x = test.create_commit(destination, "x");
    let tree = test.commit(a).tree;
    let merge = test
        .ctx
        .repo
        .objects
        .insert_commit(Commit {
            parents: vec![a, x],
            tree,
            message: b"merge".to_vec(),
            headers: vec![],
        })
        .unwrap();
    let update = compute_updated_branch_head(&test.ctx.repo.objects, merge).unwrap();
    test.ctx.state.set_stack_head(&test.ctx.repo.objects, source, update).unwrap();
    assert!(test.commit(merge).is_merge());

    assert_eq!(test.move_commit(destination, merge, source), Err(Error::NoSingleParent));
    assert_eq!(test.branch(source).head, merge);
    assert_eq!(test.branch(destination).head, x);
}

#[test]
fn the_commit_list_of_a_stack_without_one_commit() {
    let mut test = test_default();
    let source = test.create_virtual_branch();
    test.write("a.txt", "a");
    let a = test.create_commit(source, "a");
    test.write("b.txt", "b");
    let b = test.create_commit(source, "b");
    test.write("c.txt", "c");
    let c = test.create_commit(source, "c");
    let stack = test.ctx.state.get(source).unwrap();
    let db = &test.ctx.repo.objects;

    assert_eq!(filter_out_commit(db, stack, test.base, b), Ok(vec![c, a]));
    assert_eq!(filter_out_commit(db, stack, test.base, c), Ok(vec![b, a]));
    assert_eq!(filter_out_commit(db, stack, test.base, test.base), Ok(vec![c, b, a]));
    assert_eq!(filter_out_commit(db, stack, a, b), Ok(vec![c]));
    assert_eq!(filter_out_commit(db, stack, Oid::new(999), b), Err(Error::NotFound));
}

#[test]
fn taking_and_putting_are_the_two_halves_of_a_move() {
    let mut test = test_default();
    let source = test.create_virtual_branch();
    let destination = test.create_virtual_branch();
    test.write("a.txt", "a");
    let a = test.create_commit(source, "a");
    test.write("b.txt", "b");
    let b = test.create_commit(source, "b");
    let mut perm = WorktreeWritePermission::acquire();

    assert_eq!(take_commit_from_source_stack(&mut test.ctx, test.base, source, a, &mut perm), Ok(()));
    let src = test.branch(source);
    assert_eq!(descriptions(&src), vec!["b"]);
    assert_ne!(src.head, b);
    assert_eq!(test.commit(src.head).parents, vec![test.base]);
    assert_eq!(test.branch(destination).head, test.base);

    assert_eq!(move_commit_to_destination_stack(&mut test.ctx, destination, a, &mut perm), Ok(()));
    assert_eq!(test.branch(destination).head, a);

    assert_eq!(
        move_commit_to_destination_stack(&mut test.ctx, destination, Oid::new(999), &mut perm),
        Err(Error::NotFound)
    );
    assert_eq!(
        move_commit_to_destination_stack(&mut test.ctx, StackId { value: 9 }, a, &mut perm),
        Err(Error::NotFound)
    );
    assert_eq!(
        take_commit_from_source_stack(&mut test.ctx, Oid::new(999), source, src.head, &mut perm),
        Err(Error::NotFound)
    );
}
