//! The object database: a content-addressed store of commits and trees.

use crate::bytes::bytes_eq;
use crate::commit::{headers_view, Commit, CommitView, Header};
use crate::error::Error;
use crate::oid::Oid;
use crate::position::{lemma_position_of, position_of};
use crate::tree::Tree;
use vstd::prelude::*;

verus! {

/// The content of an object database: its commits and the files of its trees,
/// each at the position that its identifier names.
pub struct Objects {
    pub commits: Seq<CommitView>,
    pub trees: Seq<Map<Seq<u8>, Seq<u8>>>,
}

impl Objects {
    /// Whether the identifier names a commit.
    pub open spec fn has_commit(self, id: Oid) -> bool {
        id.index < self.commits.len()
    }

    /// Whether the identifier names a tree.
    pub open spec fn has_tree(self, id: Oid) -> bool {
        id.index < self.trees.len()
    }

    /// The commit that the identifier names.
    pub open spec fn commit(self, id: Oid) -> CommitView {
        self.commits[id.index as int]
    }

    /// The files of the tree that the identifier names.
    pub open spec fn files(self, id: Oid) -> Map<Seq<u8>, Seq<u8>> {
        self.trees[id.index as int]
    }

    /// The files of the tree of a commit.
    pub open spec fn files_of_commit(self, id: Oid) -> Map<Seq<u8>, Seq<u8>> {
        self.files(self.commit(id).tree)
    }

    /// The database is within machine limits: every position is a `usize`.
    pub open spec fn fits(self) -> bool {
        self.commits.len() <= usize::MAX && self.trees.len() <= usize::MAX
    }

    /// A commit may enter the database: its parents and its tree are there.
    pub open spec fn admits(self, c: CommitView) -> bool {
        &&& self.has_tree(c.tree)
        &&& forall|k: int| 0 <= k < c.parents.len() ==> self.has_commit(#[trigger] c.parents[k])
    }

    /// The database is well formed: every commit was admitted by the commits
    /// and trees before it, so a parent always precedes its children; and no
    /// content occurs twice, so an identifier is as good as the content.
    pub open spec fn wf(self) -> bool {
        &&& self.fits()
        &&& forall|i: int|
            0 <= i < self.commits.len() ==> {
                &&& self.has_tree((#[trigger] self.commits[i]).tree)
                &&& forall|k: int|
                    0 <= k < self.commits[i].parents.len() ==> (
                    #[trigger] self.commits[i].parents[k]).index < i
            }
        &&& forall|i: int, j: int|
            0 <= i < j < self.commits.len() ==> #[trigger] self.commits[i]
                != #[trigger] self.commits[j]
        &&& forall|i: int, j: int|
            0 <= i < j < self.trees.len() ==> #[trigger] self.trees[i] != #[trigger] self.trees[j]
    }

    /// Every object of `self` is in `later` under the same identifier.
    pub open spec fn within(self, later: Objects) -> bool {
        &&& self.commits.len() <= later.commits.len()
        &&& self.trees.len() <= later.trees.len()
        &&& forall|i: int| 0 <= i < self.commits.len() ==> self.commits[i] == later.commits[i]
        &&& forall|i: int| 0 <= i < self.trees.len() ==> self.trees[i] == later.trees[i]
    }

    /// The database after a tree with the given files was stored, and the
    /// identifier of that tree. Files that are already stored keep their
    /// identifier and leave the database as it is.
    pub open spec fn with_tree(self, files: Map<Seq<u8>, Seq<u8>>) -> (Objects, Oid) {
        let k = position_of(self.trees, files);
        if k < self.trees.len() {
            (self, Oid { index: k as usize })
        } else {
            (Objects { commits: self.commits, trees: self.trees.push(files) }, Oid {
                index: k as usize,
            })
        }
    }

    /// The database after a commit was stored, and the identifier of that
    /// commit. A commit that is already stored keeps its identifier and leaves
    /// the database as it is.
    pub open spec fn with_commit(self, c: CommitView) -> (Objects, Oid) {
        let k = position_of(self.commits, c);
        if k < self.commits.len() {
            (self, Oid { index: k as usize })
        } else {
            (Objects { commits: self.commits.push(c), trees: self.trees }, Oid {
                index: k as usize,
            })
        }
    }
}

/// Storing an object keeps every earlier object in place.
pub proof fn lemma_with_within(g: Objects, files: Map<Seq<u8>, Seq<u8>>, c: CommitView)
    ensures
        g.within(g.with_tree(files).0),
        g.within(g.with_commit(c).0),
{
    lemma_position_of(g.trees, files);
    lemma_position_of(g.commits, c);
}

/// Objects that stay in place through two additions stay in place through
/// both.
pub proof fn lemma_within_transitive(a: Objects, b: Objects, c: Objects)
    requires
        a.within(b),
        b.within(c),
    ensures
        a.within(c),
{
    assert forall|i: int| 0 <= i < a.commits.len() implies a.commits[i] == c.commits[i] by {
        assert(a.commits[i] == b.commits[i]);
    }
    assert forall|i: int| 0 <= i < a.trees.len() implies a.trees[i] == c.trees[i] by {
        assert(a.trees[i] == b.trees[i]);
    }
}

/// Storing a tree keeps the database well formed and every earlier object in
/// place, and the identifier that comes back names the files that went in.
pub proof fn lemma_with_tree(g: Objects, files: Map<Seq<u8>, Seq<u8>>)
    requires
        g.wf(),
        g.with_tree(files).0.fits(),
    ensures
        g.with_tree(files).0.wf(),
        g.within(g.with_tree(files).0),
        g.with_tree(files).0.has_tree(g.with_tree(files).1),
        g.with_tree(files).0.files(g.with_tree(files).1) == files,
        g.with_tree(files).0.commits == g.commits,
{
    lemma_position_of(g.trees, files);
}

/// Storing an admitted commit keeps the database well formed and every earlier
/// object in place, and the identifier that comes back names the commit that
/// went in.
pub proof fn lemma_with_commit(g: Objects, c: CommitView)
    requires
        g.wf(),
        g.admits(c),
        g.with_commit(c).0.fits(),
    ensures
        g.with_commit(c).0.wf(),
        g.within(g.with_commit(c).0),
        g.with_commit(c).0.has_commit(g.with_commit(c).1),
        g.with_commit(c).0.commit(g.with_commit(c).1) == c,
        g.with_commit(c).0.trees == g.trees,
{
    lemma_position_of(g.commits, c);
    let g2 = g.with_commit(c).0;
    if position_of(g.commits, c) == g.commits.len() {
        assert forall|i: int| 0 <= i < g2.commits.len() implies {
            &&& g2.has_tree((#[trigger] g2.commits[i]).tree)
            &&& forall|k: int|
                0 <= k < g2.commits[i].parents.len() ==> (#[trigger] g2.commits[i].parents[k]).index
                    < i
        } by {
            if i < g.commits.len() {
                assert(g2.commits[i] == g.commits[i]);
            }
        }
    }
}

/// In a well-formed database two identifiers that name the same commit
/// content are the same identifier.
pub proof fn lemma_commit_identity(g: Objects, a: Oid, b: Oid)
    requires
        g.wf(),
        g.has_commit(a),
        g.has_commit(b),
        g.commit(a) == g.commit(b),
    ensures
        a == b,
{
    if a.index < b.index {
        assert(g.commits[a.index as int] != g.commits[b.index as int]);
    }
    if b.index < a.index {
        assert(g.commits[b.index as int] != g.commits[a.index as int]);
    }
}

/// In a well-formed database two identifiers that name the same files are the
/// same identifier.
pub proof fn lemma_tree_identity(g: Objects, a: Oid, b: Oid)
    requires
        g.wf(),
        g.has_tree(a),
        g.has_tree(b),
        g.files(a) == g.files(b),
    ensures
        a == b,
{
    if a.index < b.index {
        assert(g.trees[a.index as int] != g.trees[b.index as int]);
    }
    if b.index < a.index {
        assert(g.trees[b.index as int] != g.trees[a.index as int]);
    }
}

/// A content-addressed store of commits and trees.
///
/// Objects are only ever added. An object that is stored twice is kept once:
/// the second store returns the identifier of the first (see [`Objects::wf`]).
#[derive(Debug)]
pub struct ObjectDatabase {
    pub commits: Vec<Commit>,
    pub trees: Vec<Tree>,
}

impl View for ObjectDatabase {
    type V = Objects;

    open spec fn view(&self) -> Objects {
        Objects {
            commits: Seq::new(self.commits@.len(), |i: int| self.commits@[i]@),
            trees: Seq::new(self.trees@.len(), |i: int| self.trees@[i]@),
        }
    }
}

fn oids_eq(a: &Vec<Oid>, b: &Vec<Oid>) -> (r: bool)
    ensures
        r == (a@ == b@),
{
    if a.len() != b.len() {
        return false;
    }
    let mut i: usize = 0;
    while i < a.len()
        invariant
            a@.len() == b@.len(),
            i <= a@.len(),
            forall|k: int| 0 <= k < i ==> a@[k] == b@[k],
        decreases a@.len() - i,
    {
        if a[i].index != b[i].index {
            return false;
        }
        i += 1;
    }
    assert(a@ =~= b@);
    true
}

fn headers_eq(a: &Vec<Header>, b: &Vec<Header>) -> (r: bool)
    ensures
        r == (headers_view(a@) == headers_view(b@)),
{
    if a.len() != b.len() {
        assert(headers_view(a@).len() != headers_view(b@).len());
        return false;
    }
    let mut i: usize = 0;
    while i < a.len()
        invariant
            a@.len() == b@.len(),
            i <= a@.len(),
            forall|k: int| 0 <= k < i ==> a@[k]@ == b@[k]@,
        decreases a@.len() - i,
    {
        if !bytes_eq(a[i].name.as_slice(), b[i].name.as_slice()) || !bytes_eq(
            a[i].value.as_slice(),
            b[i].value.as_slice(),
        ) {
            assert(headers_view(a@)[i as int] != headers_view(b@)[i as int]);
            return false;
        }
        i += 1;
    }
    assert(headers_view(a@) =~= headers_view(b@));
    true
}

/// Whether two commits say the same.
pub fn commit_same(a: &Commit, b: &Commit) -> (r: bool)
    ensures
        r == (a@ == b@),
{
    a.tree.index == b.tree.index && oids_eq(&a.parents, &b.parents) && bytes_eq(
        a.message.as_slice(),
        b.message.as_slice(),
    ) && headers_eq(&a.headers, &b.headers)
}

impl ObjectDatabase {
    /// The database is well formed: its content is (see [`Objects::wf`]), and
    /// so is each of its trees.
    pub open spec fn wf(&self) -> bool {
        &&& self@.wf()
        &&& forall|i: int| 0 <= i < self.trees@.len() ==> (#[trigger] self.trees@[i]).wf()
    }

    /// The empty database.
    pub fn new() -> (r: ObjectDatabase)
        ensures
            r.wf(),
            r@.commits.len() == 0,
            r@.trees.len() == 0,
    {
        ObjectDatabase { commits: Vec::new(), trees: Vec::new() }
    }

    /// The commit with the given identifier.
    pub fn find_commit(&self, id: Oid) -> (r: Result<&Commit, Error>)
        ensures
            match r {
                Ok(c) => self@.has_commit(id) && c@ == self@.commit(id),
                Err(e) => !self@.has_commit(id) && e == Error::NotFound,
            },
    {
        if id.index < self.commits.len() {
            Ok(&self.commits[id.index])
        } else {
            Err(Error::NotFound)
        }
    }

    /// The tree with the given identifier.
    pub fn find_tree(&self, id: Oid) -> (r: Result<&Tree, Error>)
        requires
            self.wf(),
        ensures
            match r {
                Ok(t) => self@.has_tree(id) && t@ == self@.files(id) && t.wf(),
                Err(e) => !self@.has_tree(id) && e == Error::NotFound,
            },
    {
        if id.index < self.trees.len() {
            Ok(&self.trees[id.index])
        } else {
            Err(Error::NotFound)
        }
    }

    /// Stores a tree and returns its identifier. Files that are already
    /// stored are not stored again.
    pub fn insert_tree(&mut self, tree: Tree) -> (id: Oid)
        requires
            old(self).wf(),
            tree.wf(),
        ensures
            final(self).wf(),
            (final(self)@, id) == old(self)@.with_tree(tree@),
            old(self)@.within(final(self)@),
            final(self)@.has_tree(id),
            final(self)@.files(id) == tree@,
            final(self)@.commits == old(self)@.commits,
    {
        let mut i: usize = 0;
        while i < self.trees.len()
            invariant
                *self == *old(self),
                self.wf(),
                tree.wf(),
                i <= self.trees@.len(),
                forall|k: int| 0 <= k < i ==> self@.trees[k] != tree@,
            decreases self.trees@.len() - i,
        {
            if self.trees[i].same(&tree) {
                proof {
                    lemma_position_of(self@.trees, tree@);
                    assert(self@.trees[i as int] == tree@);
                    lemma_with_tree(self@, tree@);
                }
                return Oid { index: i };
            }
            i += 1;
        }
        self.trees.push(tree);
        proof {
            let stored: usize = self.trees.len();
            assert(self@.trees =~= old(self)@.trees.push(tree@));
            assert(self@.commits =~= old(self)@.commits);
            lemma_position_of(old(self)@.trees, tree@);
            assert(self@ == old(self)@.with_tree(tree@).0);
            assert(self@.trees.len() == stored);
            lemma_with_tree(old(self)@, tree@);
        }
        Oid { index: i }
    }

    /// Stores a commit and returns its identifier. The parents and the tree
    /// of the commit must be in the database; a commit that is already stored
    /// is not stored again.
    pub fn insert_commit(&mut self, commit: Commit) -> (r: Result<Oid, Error>)
        requires
            old(self).wf(),
        ensures
            final(self).wf(),
            match r {
                Ok(id) => {
                    &&& old(self)@.admits(commit@)
                    &&& (final(self)@, id) == old(self)@.with_commit(commit@)
                    &&& old(self)@.within(final(self)@)
                    &&& final(self)@.has_commit(id)
                    &&& final(self)@.commit(id) == commit@
                    &&& final(self)@.trees == old(self)@.trees
                },
                Err(e) => !old(self)@.admits(commit@) && e == Error::NotFound && *final(self)
                    == *old(self),
            },
    {
        if commit.tree.index >= self.trees.len() {
            return Err(Error::NotFound);
        }
        let mut k: usize = 0;
        while k < commit.parents.len()
            invariant
                *self == *old(self),
                self.wf(),
                k <= commit.parents@.len(),
                forall|m: int| 0 <= m < k ==> self@.has_commit(#[trigger] commit@.parents[m]),
            decreases commit.parents@.len() - k,
        {
            if commit.parents[k].index >= self.commits.len() {
                assert(!self@.has_commit(commit@.parents[k as int]));
                return Err(Error::NotFound);
            }
            k += 1;
        }
        let mut i: usize = 0;
        while i < self.commits.len()
            invariant
                *self == *old(self),
                self.wf(),
                self@.admits(commit@),
                i <= self.commits@.len(),
                forall|k: int| 0 <= k < i ==> self@.commits[k] != commit@,
            decreases self.commits@.len() - i,
        {
            if commit_same(&self.commits[i], &commit) {
                proof {
                    lemma_position_of(self@.commits, commit@);
                    assert(self@.commits[i as int] == commit@);
                    lemma_with_commit(self@, commit@);
                }
                return Ok(Oid { index: i });
            }
            i += 1;
        }
        let ghost pushed = commit@;
        self.commits.push(commit);
        proof {
            let stored: usize = self.commits.len();
            assert(self@.commits =~= old(self)@.commits.push(pushed));
            assert(self@.trees =~= old(self)@.trees);
            lemma_position_of(old(self)@.commits, pushed);
            assert(self@ == old(self)@.with_commit(pushed).0);
            assert(self@.commits.len() == stored);
            lemma_with_commit(old(self)@, pushed);
        }
        Ok(Oid { index: i })
    }
}

} // verus!
