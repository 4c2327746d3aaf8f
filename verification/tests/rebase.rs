use branch_actions::commit::{set_header, Commit, CommitExt, Header};
use branch_actions::error::Error;
use branch_actions::merge::{merge_entry, merge_trees, overlay};
use branch_actions::odb::ObjectDatabase;
use branch_actions::oid::Oid;
use branch_actions::rebase::{cherry_pick, cherry_rebase_group};
use branch_actions::tree::Tree;

fn tree_of(files: &[(&str, &str)]) -> Tree {
    let mut tree = Tree::new();
    for (path, content) in files {
        tree.set(path.as_bytes(), content.as_bytes());
    }
    tree
}

fn commit(db: &mut ObjectDatabase, parents: Vec<Oid>, files: &[(&str, &str)], message: &str) -> Oid {
    let tree = db.insert_tree(tree_of(files));
    db.insert_commit(Commit {
        parents,
        tree,
        message: message.as_bytes().to_vec(),
        headers: vec![Header { name: b"change-id".to_vec(), value: message.as_bytes().to_vec() }],
    })
    .unwrap()
}

fn file(db: &ObjectDatabase, id: Oid, path: &str) -> Option<String> {
    let tree = db.find_commit(id).unwrap().tree;
    db.find_tree(tree).unwrap().get(path.as_bytes()).map(|c| String::from_utf8(c.clone()).unwrap())
}

#[test]
fn rebasing_nothing_returns_the_base_itself() {
    let mut db = ObjectDatabase::new();
    let base = commit(&mut db, vec![], &[("a", "1")], "base");
    let commits = db.commits.len();
    let trees = db.trees.len();

    assert_eq!(cherry_rebase_group(&mut db, base, &vec![]), Ok(base));

    assert_eq!(db.commits.len(), commits);
    assert_eq!(db.trees.len(), trees);
}

#[test]
fn commits_are_replayed_in_the_given_order() {
    let mut db = ObjectDatabase::new();
    let root = commit(&mut db, vec![], &[], "root");
    let a = commit(&mut db, vec![root], &[("a", "1")], "a");
    let b = commit(&mut db, vec![a], &[("a", "1"), ("b", "2")], "b");
    let other = commit(&mut db, vec![root], &[("x", "9")], "other");

    let head = cherry_rebase_group(&mut db, other, &vec![a, b]).unwrap();

    let top = db.find_commit(head).unwrap();
    assert_eq!(top.message, b"b".to_vec());
    assert_eq!(top.change_id(), Some("b".to_string()));
    assert_eq!(top.parents.len(), 1);
    let below = db.find_commit(top.parents[0]).unwrap();
    assert_eq!(below.message, b"a".to_vec());
    assert_eq!(below.parents, vec![other]);
    assert_ne!(head, b);
    assert_ne!(top.parents[0], a);
    assert_eq!(file(&db, head, "a"), Some("1".to_string()));
    assert_eq!(file(&db, head, "b"), Some("2".to_string()));
    assert_eq!(file(&db, head, "x"), Some("9".to_string()));
    assert_eq!(file(&db, top.parents[0], "b"), None);
    assert_eq!(db.log(head, root), Ok(vec![head, top.parents[0], other]));
}

#[test]
fn replaying_a_chain_onto_its_own_base_makes_the_same_commits() {
    let mut db = ObjectDatabase::new();
    let root = commit(&mut db, vec![], &[], "root");
    let a = commit(&mut db, vec![root], &[("a", "1")], "a");
    let b = commit(&mut db, vec![a], &[("a", "1"), ("b", "2")], "b");
    let commits = db.commits.len();

    assert_eq!(cherry_rebase_group(&mut db, root, &vec![a, b]), Ok(b));
    assert_eq!(cherry_pick(&mut db, a, b), Ok(b));
    assert_eq!(db.commits.len(), commits);
}

#[test]
fn a_rebase_fails_where_a_commit_does_not_resolve() {
    let mut db = ObjectDatabase::new();
    let root = commit(&mut db, vec![], &[], "root");
    let a = commit(&mut db, vec![root], &[("a", "1")], "a");
    let commits = db.commits.len();

    assert_eq!(cherry_rebase_group(&mut db, Oid::new(99), &vec![a]), Err(Error::NotFound));
    assert_eq!(cherry_rebase_group(&mut db, root, &vec![a, Oid::new(99)]), Err(Error::NotFound));
    assert_eq!(cherry_pick(&mut db, root, Oid::new(99)), Err(Error::NotFound));
    assert_eq!(cherry_pick(&mut db, Oid::new(99), a), Err(Error::NotFound));
    assert_eq!(db.commits.len(), commits);
}

#[test]
fn conflicts_are_counted_and_the_replay_goes_on() {
    let mut db = ObjectDatabase::new();
    let root = commit(&mut db, vec![], &[("f", "0"), ("g", "0"), ("h", "0")], "root");
    let a = commit(&mut db, vec![root], &[("f", "a"), ("g", "a"), ("h", "0")], "a");
    let b = commit(&mut db, vec![a], &[("f", "a"), ("g", "a"), ("h", "b")], "b");
    let other = commit(&mut db, vec![root], &[("f", "x"), ("g", "y"), ("h", "0")], "other");

    let head = cherry_rebase_group(&mut db, other, &vec![a, b]).unwrap();

    let top = db.find_commit(head).unwrap();
    let first = db.find_commit(top.parents[0]).unwrap();
    assert!(first.is_conflicted());
    assert_eq!(first.conflicted_files(), Some(2));
    assert_eq!(first.change_id(), Some("a".to_string()));
    assert_eq!(
        file(&db, top.parents[0], "f"),
        Some("<<<<<<< ours\nx=======\na>>>>>>> theirs\n".to_string())
    );
    assert_eq!(
        file(&db, top.parents[0], "g"),
        Some("<<<<<<< ours\ny=======\na>>>>>>> theirs\n".to_string())
    );
    assert_eq!(file(&db, top.parents[0], "h"), Some("0".to_string()));
    // b changed only h: it replays without a conflict of its own
    assert!(!top.is_conflicted());
    assert_eq!(file(&db, head, "h"), Some("b".to_string()));
    assert_eq!(
        file(&db, head, "f"),
        Some("<<<<<<< ours\nx=======\na>>>>>>> theirs\n".to_string())
    );
}

#[test]
fn a_conflict_marker_that_is_there_is_replaced() {
    let mut headers = vec![
        Header { name: b"change-id".to_vec(), value: b"c".to_vec() },
        Header { name: b"conflicted".to_vec(), value: b"7".to_vec() },
    ];
    set_header(&mut headers, b"conflicted", b"2".to_vec());
    assert_eq!(headers.len(), 2);
    assert_eq!(headers[1].value, b"2".to_vec());
    set_header(&mut headers, b"gpgsig", b"sig".to_vec());
    assert_eq!(headers.len(), 3);
    assert_eq!(headers[2].name, b"gpgsig".to_vec());
    assert_eq!(headers[0].value, b"c".to_vec());
}

#[test]
fn three_way_merge_of_one_path() {
    let a = b"a".to_vec();
    let b = b"b".to_vec();
    let c = b"c".to_vec();
    // only theirs changed
    assert_eq!(merge_entry(Some(&a), Some(&a), Some(&b)), (Some(b.clone()), false));
    // only ours changed
    assert_eq!(merge_entry(Some(&a), Some(&b), Some(&a)), (Some(b.clone()), false));
    // both made the same change
    assert_eq!(merge_entry(Some(&a), Some(&b), Some(&b)), (Some(b.clone()), false));
    // theirs deleted
    assert_eq!(merge_entry(Some(&a), Some(&a), None), (None, false));
    // both deleted
    assert_eq!(merge_entry(Some(&a), None, None), (None, false));
    // theirs added
    assert_eq!(merge_entry(None, None, Some(&b)), (Some(b.clone()), false));
    // both changed, differently
    assert_eq!(
        merge_entry(Some(&a), Some(&b), Some(&c)),
        (Some(b"<<<<<<< ours\nb=======\nc>>>>>>> theirs\n".to_vec()), true)
    );
    // ours deleted, theirs changed
    assert_eq!(
        merge_entry(Some(&a), None, Some(&c)),
        (Some(b"<<<<<<< ours\n=======\nc>>>>>>> theirs\n".to_vec()), true)
    );
    // both added, differently
    assert_eq!(
        merge_entry(None, Some(&b), Some(&c)),
        (Some(b"<<<<<<< ours\nb=======\nc>>>>>>> theirs\n".to_vec()), true)
    );
}

#[test]
fn three_way_merge_of_trees() {
    let base = tree_of(&[("keep", "0"), ("ours", "0"), ("theirs", "0"), ("both", "0"), ("gone", "0")]);
    let ours = tree_of(&[("keep", "0"), ("ours", "1"), ("theirs", "0"), ("both", "1"), ("gone", "0"), ("new ours", "n")]);
    let theirs = tree_of(&[("keep", "0"), ("ours", "0"), ("theirs", "2"), ("both", "2"), ("new theirs", "m")]);

    let merged = merge_trees(&base, &ours, &theirs);

    let expected = tree_of(&[
        ("keep", "0"),
        ("ours", "1"),
        ("theirs", "2"),
        ("both", "<<<<<<< ours\n1=======\n2>>>>>>> theirs\n"),
        ("new ours", "n"),
        ("new theirs", "m"),
    ]);
    assert!(merged.tree.same(&expected));
    assert_eq!(merged.tree.len(), 6);
    assert_eq!(merged.conflicts, vec![b"both".to_vec()]);
}

#[test]
fn the_upper_tree_wins_in_an_overlay() {
    let lower = tree_of(&[("a", "1"), ("b", "1")]);
    let upper = tree_of(&[("b", "2"), ("c", "2")]);
    let both = overlay(&lower, &upper);
    assert!(both.same(&tree_of(&[("a", "1"), ("b", "2"), ("c", "2")])));
    assert!(!both.same(&overlay(&upper, &lower)));
    assert!(overlay(&lower, &Tree::new()).same(&lower));
}
