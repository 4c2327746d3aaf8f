use branch_actions::branch_trees::{
    checkout_branch_trees, compute_updated_branch_head, merged_branch_trees,
};
use branch_actions::bytes::{append_bytes, bytes_eq, decimal_bytes, parse_u32, push_decimal};
use branch_actions::commit::{write_headers, Commit, CommitExt, Header};
use branch_actions::config::optional_value;
use branch_actions::conflicts::Conflicts;
use branch_actions::error::Error;
use branch_actions::integration::update_workspace_commit;
use branch_actions::odb::ObjectDatabase;
use branch_actions::oid::Oid;
use branch_actions::refs::References;
use branch_actions::repository::{Repository, Workspace, WorktreeWritePermission};
use branch_actions::stack::{BranchHeadAndTree, Stack, StackId, Target, VirtualBranchesState};
use branch_actions::tree::Tree;

fn commit_with(parents: Vec<Oid>, headers: Vec<(&str, &[u8])>) -> Commit {
    Commit {
        parents,
        tree: Oid::new(0),
        message: b"commit one\n\nbody \xff".to_vec(),
        headers: headers
            .into_iter()
            .map(|(name, value)| Header { name: name.as_bytes().to_vec(), value: value.to_vec() })
            .collect(),
    }
}

#[test]
fn message_is_read_byte_for_byte() {
    let c = commit_with(vec![], vec![]);
    assert_eq!(c.message_bstr(), &b"commit one\n\nbody \xff"[..]);
    assert_eq!(c.message_bstr().len(), 18);
    let plain = Commit { message: b"commit one".to_vec(), ..commit_with(vec![], vec![]) };
    assert_eq!(plain.message_bstr(), "commit one");
}

#[test]
fn change_id_is_read_from_its_header() {
    let c = commit_with(vec![], vec![("gpgsig", b"sig"), ("change-id", b"abc-123")]);
    assert_eq!(c.change_id(), Some("abc-123".to_string()));
    let unicode = commit_with(vec![], vec![("change-id", "zm\u{e9}".as_bytes())]);
    assert_eq!(unicode.change_id(), Some("zm\u{e9}".to_string()));
}

#[test]
fn change_id_is_absent_without_a_usable_header() {
    assert_eq!(commit_with(vec![], vec![]).change_id(), None);
    assert_eq!(commit_with(vec![], vec![("change-id", b"")]).change_id(), None);
    assert_eq!(commit_with(vec![], vec![("change-id", b"\xff\xfe")]).change_id(), None);
    assert_eq!(commit_with(vec![], vec![("Change-Id", b"abc")]).change_id(), None);
}

#[test]
fn the_first_header_of_a_name_counts() {
    let c = commit_with(vec![], vec![("change-id", b"first"), ("change-id", b"second")]);
    assert_eq!(c.change_id(), Some("first".to_string()));
    assert_eq!(c.header_field_bytes("change-id"), Some(&b"first".to_vec()));
    assert_eq!(c.header_field_bytes("change"), None);
}

#[test]
fn signature_and_conflict_marker_are_found_by_their_headers() {
    let plain = commit_with(vec![], vec![("change-id", b"x")]);
    assert!(!plain.is_signed());
    assert!(!plain.is_conflicted());
    assert_eq!(plain.conflicted_files(), None);
    let signed = commit_with(vec![], vec![("gpgsig", b"")]);
    assert!(signed.is_signed());
    let conflicted = commit_with(vec![], vec![("conflicted", b"3")]);
    assert!(conflicted.is_conflicted());
    assert_eq!(conflicted.conflicted_files(), Some(3));
}

#[test]
fn a_conflict_marker_without_a_number_lists_no_count() {
    for value in [&b""[..], b"three", b"3 ", b" 3", b"-3", b"+", b"4294967296", b"3\xff", b"0x10"] {
        let c = commit_with(vec![], vec![("conflicted", value)]);
        assert!(c.is_conflicted());
        assert_eq!(c.conflicted_files(), None);
    }
}

#[test]
fn a_merge_has_more_than_one_parent() {
    assert!(!commit_with(vec![], vec![]).is_merge());
    assert!(!commit_with(vec![Oid::new(0)], vec![]).is_merge());
    assert!(commit_with(vec![Oid::new(0), Oid::new(1)], vec![]).is_merge());
}

#[test]
fn decimal_numbers_are_read_as_the_standard_library_reads_them() {
    for text in ["0", "7", "+7", "007", "42", "4294967295", "+4294967295", "", "+", "-", "-1", "+-1",
        "++1", "4294967296", "99999999999999999999", "1a", "a1", " 1", "1 ", "1_000", "١"]
    {
        assert_eq!(parse_u32(text.as_bytes()), text.parse::<u32>().ok(), "{:?}", text);
    }
    assert_eq!(parse_u32(b"4294967295"), Some(u32::MAX));
    assert_eq!(parse_u32(b"+12"), Some(12));
    assert_eq!(parse_u32(b"12\xc3"), None);
}

#[test]
fn decimal_numbers_are_written_without_leading_zeros() {
    assert_eq!(decimal_bytes(0), b"0".to_vec());
    assert_eq!(decimal_bytes(9), b"9".to_vec());
    assert_eq!(decimal_bytes(10), b"10".to_vec());
    assert_eq!(decimal_bytes(1234), b"1234".to_vec());
    assert_eq!(decimal_bytes(u64::MAX), b"18446744073709551615".to_vec());
    let mut out = b"n=".to_vec();
    push_decimal(&mut out, 305);
    assert_eq!(out, b"n=305".to_vec());
    for n in [0u32, 1, 99, 100, 65535, u32::MAX] {
        assert_eq!(parse_u32(&decimal_bytes(n as u64)), Some(n));
    }
    assert_eq!(parse_u32(&decimal_bytes(u32::MAX as u64 + 1)), None);
}

#[test]
fn byte_strings_are_compared_and_appended() {
    assert!(bytes_eq(b"", b""));
    assert!(bytes_eq(b"abc", b"abc"));
    assert!(!bytes_eq(b"abc", b"abd"));
    assert!(!bytes_eq(b"abc", b"ab"));
    let mut out = b"ab".to_vec();
    append_bytes(&mut out, b"cd");
    append_bytes(&mut out, b"");
    assert_eq!(out, b"abcd".to_vec());
}

#[test]
fn every_failure_has_its_message() {
    assert_eq!(Error::NotFound.to_string(), "not found");
    assert_eq!(Error::ForcePushRequiredButDisallowed.to_string(), "force push not allowed");
    assert_eq!(Error::EmptyCommitMessage.to_string(), "commit message can not be empty");
    assert_eq!(Error::UnresolvedConflicts.to_string(), "conflicts must be resolved first");
    assert_eq!(Error::NoSingleParent.to_string(), "commit does not have exactly one parent");
}

#[test]
fn conflicts_are_marked_and_resolved_by_path() {
    let mut conflicts = Conflicts::new();
    assert!(!conflicts.is_resolving());
    assert_eq!(conflicts.assure_resolved(), Ok(()));
    conflicts.mark(b"a.txt");
    conflicts.mark(b"b.txt");
    conflicts.mark(b"a.txt");
    assert!(conflicts.is_resolving());
    assert!(conflicts.contains(b"a.txt"));
    assert!(!conflicts.contains(b"c.txt"));
    assert_eq!(conflicts.assure_resolved(), Err(Error::UnresolvedConflicts));
    conflicts.resolve(b"a.txt");
    assert!(!conflicts.contains(b"a.txt"));
    assert!(conflicts.contains(b"b.txt"));
    conflicts.resolve(b"c.txt");
    assert!(conflicts.is_resolving());
    conflicts.resolve(b"b.txt");
    assert!(!conflicts.is_resolving());
    assert_eq!(conflicts.assure_resolved(), Ok(()));
}

#[test]
fn a_reference_stands_for_the_commit_it_was_last_set_to() {
    let mut refs = References::new();
    assert_eq!(refs.find(b"refs/heads/a"), Err(Error::NotFound));
    refs.set(b"refs/heads/a", Oid::new(1));
    refs.set(b"refs/heads/b", Oid::new(2));
    refs.set(b"refs/heads/a", Oid::new(3));
    assert_eq!(refs.find(b"refs/heads/a"), Ok(Oid::new(3)));
    assert_eq!(refs.find(b"refs/heads/b"), Ok(Oid::new(2)));
    assert_eq!(refs.find(b"refs/heads/"), Err(Error::NotFound));
    assert_eq!(refs.entries.len(), 2);
}

#[test]
fn a_reference_to_a_missing_commit_does_not_resolve() {
    let mut repo = Repository::new();
    repo.references.set(b"refs/heads/a", Oid::new(0));
    assert_eq!(repo.find_reference(b"refs/heads/a"), Err(Error::NotFound));
    let tree = repo.objects.insert_tree(Tree::new());
    let root = repo
        .objects
        .insert_commit(Commit { parents: vec![], tree, message: vec![], headers: vec![] })
        .unwrap();
    assert_eq!(repo.find_reference(b"refs/heads/a"), Ok(root));
    assert_eq!(repo.assure_resolved(), Ok(()));
    repo.conflicts.mark(b"x");
    assert_eq!(repo.assure_resolved(), Err(Error::UnresolvedConflicts));
}

fn stack(id: u64, head: Oid, tree: Oid) -> Stack {
    Stack { id: StackId { value: id }, name: vec![], head, tree, allow_rebasing: true, upstream: None }
}

#[test]
fn the_store_finds_stacks_by_their_identifier() {
    let mut state = VirtualBranchesState::new();
    assert!(matches!(state.get(StackId { value: 1 }), Err(Error::NotFound)));
    assert!(state.try_branch(StackId { value: 1 }).is_none());
    assert!(matches!(state.get_default_target(), Err(Error::NotFound)));
    state.add_stack(stack(1, Oid::new(0), Oid::new(0))).unwrap();
    state.add_stack(stack(2, Oid::new(1), Oid::new(0))).unwrap();
    assert_eq!(state.add_stack(stack(2, Oid::new(5), Oid::new(5))), Err(Error::NotFound));
    assert_eq!(state.stacks.len(), 2);
    assert_eq!(state.get(StackId { value: 2 }).unwrap().head(), Oid::new(1));
    assert_eq!(state.try_branch(StackId { value: 1 }).unwrap().head, Oid::new(0));
    assert_eq!(state.position(StackId { value: 2 }), Some(1));
    state.set_default_target(Target { branch: b"refs/remotes/origin/master".to_vec(), sha: Oid::new(0) });
    assert_eq!(state.get_default_target().unwrap().sha, Oid::new(0));
}

#[test]
fn head_and_tree_are_set_together() {
    let mut db = ObjectDatabase::new();
    let empty = db.insert_tree(Tree::new());
    let mut files = Tree::new();
    files.set(b"a", b"1");
    let tree = db.insert_tree(files);
    let root = db
        .insert_commit(Commit { parents: vec![], tree: empty, message: vec![], headers: vec![] })
        .unwrap();
    let next = db
        .insert_commit(Commit { parents: vec![root], tree, message: vec![], headers: vec![] })
        .unwrap();
    let mut state = VirtualBranchesState::new();
    state.add_stack(stack(1, root, empty)).unwrap();
    state.add_stack(stack(2, root, empty)).unwrap();
    let update = BranchHeadAndTree { head: next, tree };
    assert_eq!(state.set_stack_head(&db, StackId { value: 2 }, update), Ok(()));
    assert_eq!(state.get(StackId { value: 2 }).unwrap().head, next);
    assert_eq!(state.get(StackId { value: 2 }).unwrap().tree, tree);
    assert_eq!(state.get(StackId { value: 1 }).unwrap().head, root);
    assert_eq!(state.stacks[1].id, StackId { value: 2 });
    // no such stack
    assert_eq!(state.set_stack_head(&db, StackId { value: 3 }, update), Err(Error::NotFound));
    // a head that is no commit, and a tree that is not the tree of the head
    let missing = BranchHeadAndTree { head: Oid::new(9), tree };
    assert_eq!(state.set_stack_head(&db, StackId { value: 1 }, missing), Err(Error::NotFound));
    let apart = BranchHeadAndTree { head: next, tree: empty };
    assert_eq!(state.set_stack_head(&db, StackId { value: 1 }, apart), Err(Error::NotFound));
    assert_eq!(state.get(StackId { value: 1 }).unwrap().head, root);
    assert_eq!(state.get(StackId { value: 1 }).unwrap().tree, empty);
}

#[test]
fn the_head_of_a_stack_is_the_commit_and_its_tree() {
    let mut db = ObjectDatabase::new();
    db.insert_tree(Tree::new());
    let mut other = Tree::new();
    other.set(b"a", b"1");
    let tree = db.insert_tree(other);
    let id = db
        .insert_commit(Commit { parents: vec![], tree, message: vec![], headers: vec![] })
        .unwrap();
    assert_eq!(compute_updated_branch_head(&db, id), Ok(BranchHeadAndTree { head: id, tree }));
    assert_eq!(compute_updated_branch_head(&db, Oid::new(3)), Err(Error::NotFound));
}

#[test]
fn replacing_the_head_takes_it_off_an_excised_commit() {
    let mut db = ObjectDatabase::new();
    let tree = db.insert_tree(Tree::new());
    let root = db
        .insert_commit(Commit { parents: vec![], tree, message: b"r".to_vec(), headers: vec![] })
        .unwrap();
    let a = db
        .insert_commit(Commit { parents: vec![root], tree, message: b"a".to_vec(), headers: vec![] })
        .unwrap();
    let b = db
        .insert_commit(Commit { parents: vec![a], tree, message: b"b".to_vec(), headers: vec![] })
        .unwrap();
    let m = db
        .insert_commit(Commit { parents: vec![a, b], tree, message: b"m".to_vec(), headers: vec![] })
        .unwrap();
    let mut state = VirtualBranchesState::new();
    let id = StackId { value: 1 };
    state.add_stack(stack(1, b, tree)).unwrap();

    // the head is on the excised commit: it moves to the parent
    assert_eq!(state.replace_head(&db, id, b, a), Ok(()));
    assert_eq!(state.get(id).unwrap().head, a);
    // the head is elsewhere: nothing to do
    state.set_stack_head(&db, id, BranchHeadAndTree { head: b, tree }).unwrap();
    assert_eq!(state.replace_head(&db, id, a, root), Ok(()));
    assert_eq!(state.get(id).unwrap().head, b);
    // not the parent of the commit, no parent, several parents
    assert_eq!(state.replace_head(&db, id, b, root), Err(Error::NoSingleParent));
    assert_eq!(state.replace_head(&db, id, root, root), Err(Error::NoSingleParent));
    assert_eq!(state.replace_head(&db, id, m, a), Err(Error::NoSingleParent));
    // what does not resolve
    assert_eq!(state.replace_head(&db, id, Oid::new(50), a), Err(Error::NotFound));
    assert_eq!(state.replace_head(&db, StackId { value: 2 }, b, a), Err(Error::NotFound));
    assert_eq!(state.get(id).unwrap().head, b);
}

#[test]
fn the_workspace_commit_merges_the_heads_of_all_stacks() {
    let mut ctx = Workspace::new();
    let empty = ctx.repo.objects.insert_tree(Tree::new());
    let root = ctx
        .repo
        .objects
        .insert_commit(Commit { parents: vec![], tree: empty, message: b"r".to_vec(), headers: vec![] })
        .unwrap();
    let mut heads = vec![];
    for (n, files) in [vec![("a", "1"), ("s", "first")], vec![("b", "2"), ("s", "second")]].iter().enumerate() {
        let mut tree = Tree::new();
        for (path, content) in files {
            tree.set(path.as_bytes(), content.as_bytes());
        }
        let tree = ctx.repo.objects.insert_tree(tree);
        let head = ctx
            .repo
            .objects
            .insert_commit(Commit { parents: vec![root], tree, message: vec![n as u8], headers: vec![] })
            .unwrap();
        ctx.state.add_stack(stack(n as u64, head, tree)).unwrap();
        heads.push(head);
    }

    let merged = merged_branch_trees(&ctx.repo.objects, &ctx.state);
    assert_eq!(merged.len(), 3);
    assert_eq!(merged.get(b"s"), Some(&b"second".to_vec()));

    let mut perm = WorktreeWritePermission::acquire();
    checkout_branch_trees(&mut ctx, &mut perm);
    assert!(ctx.repo.worktree.same(&merged));
    assert_eq!(ctx.repo.head, None);

    let id = update_workspace_commit(&mut ctx, &mut perm);
    assert_eq!(ctx.repo.head, Some(id));
    let commit = ctx.repo.find_commit(id).unwrap();
    assert_eq!(commit.parents, heads);
    assert!(ctx.repo.objects.find_tree(commit.tree).unwrap().same(&merged));
    assert!(ctx.repo.worktree.same(&merged));
    // the same heads make the same workspace commit
    assert_eq!(update_workspace_commit(&mut ctx, &mut perm), id);
}

#[test]
fn a_workspace_without_stacks_has_an_empty_workspace_commit() {
    let mut ctx = Workspace::new();
    let id = update_workspace_commit(&mut ctx, &mut WorktreeWritePermission::acquire());
    let commit = ctx.repo.find_commit(id).unwrap();
    assert_eq!(commit.parents, vec![]);
    assert_eq!(ctx.repo.objects.find_tree(commit.tree).unwrap().len(), 0);
    assert_eq!(ctx.repo.worktree.len(), 0);
}

#[test]
fn a_missing_configuration_value_is_no_failure() {
    assert_eq!(optional_value::<u8>(Ok("value".to_string()), false), Ok(Some("value".to_string())));
    assert_eq!(optional_value::<u8>(Ok("value".to_string()), true), Ok(Some("value".to_string())));
    assert_eq!(optional_value(Err(3u8), true), Ok(None));
    assert_eq!(optional_value(Err(3u8), false), Err(3u8));
}

#[test]
fn header_fields_are_written_with_continuation_lines() {
    let c = commit_with(
        vec![],
        vec![("author", b"A <a@example.com> 0 +0000"), ("gpgsig", b"line one\nline two\n"), ("change-id", b"")],
    );
    let mut out = b"tree 00\n".to_vec();
    write_headers(&mut out, &c.headers);
    assert_eq!(
        out,
        b"tree 00\nauthor A <a@example.com> 0 +0000\ngpgsig line one\n line two\n \nchange-id \n".to_vec()
    );
    let mut nothing = Vec::new();
    write_headers(&mut nothing, &vec![]);
    assert_eq!(nothing, Vec::<u8>::new());
}
