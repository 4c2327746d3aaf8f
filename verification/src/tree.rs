//! Trees: the files of one snapshot, by path.

use crate::bytes::{bytes_eq, bytes_to_vec};
use vstd::prelude::*;

verus! {

/// One file of a tree: its path and its content, both raw bytes.
#[derive(Debug)]
pub struct TreeEntry {
    pub path: Vec<u8>,
    pub content: Vec<u8>,
}

/// A snapshot of files. No path occurs twice (see [`Tree::wf`]).
#[derive(Debug)]
pub struct Tree {
    pub entries: Vec<TreeEntry>,
}

/// The paths and contents of a list of entries, in their order.
pub open spec fn pairs_of(entries: Seq<TreeEntry>) -> Seq<(Seq<u8>, Seq<u8>)> {
    Seq::new(entries.len(), |i: int| (entries[i].path@, entries[i].content@))
}

/// The content that a list of entries gives a path: that of the last entry
/// with this path.
pub open spec fn lookup(pairs: Seq<(Seq<u8>, Seq<u8>)>, path: Seq<u8>) -> Option<Seq<u8>>
    decreases pairs.len(),
{
    if pairs.len() == 0 {
        None
    } else if pairs.last().0 == path {
        Some(pairs.last().1)
    } else {
        lookup(pairs.drop_last(), path)
    }
}

/// No path occurs twice.
pub open spec fn unique_paths(pairs: Seq<(Seq<u8>, Seq<u8>)>) -> bool {
    forall|i: int, j: int|
        0 <= i < pairs.len() && 0 <= j < pairs.len() && i != j ==> (#[trigger] pairs[i]).0 != (
        #[trigger] pairs[j]).0
}

/// The content of a path in a map from paths to contents.
pub open spec fn content_at(files: Map<Seq<u8>, Seq<u8>>, path: Seq<u8>) -> Option<Seq<u8>> {
    if files.dom().contains(path) {
        Some(files[path])
    } else {
        None
    }
}

/// The map from paths to contents that a lookup function describes.
pub open spec fn files_of(pairs: Seq<(Seq<u8>, Seq<u8>)>) -> Map<Seq<u8>, Seq<u8>> {
    Map::new(|p: Seq<u8>| lookup(pairs, p) is Some, |p: Seq<u8>| lookup(pairs, p).unwrap())
}

pub proof fn lemma_lookup_push(pairs: Seq<(Seq<u8>, Seq<u8>)>, path: Seq<u8>, content: Seq<u8>)
    ensures
        forall|q: Seq<u8>| #[trigger]
            lookup(pairs.push((path, content)), q) == if q == path {
                Some(content)
            } else {
                lookup(pairs, q)
            },
{
    assert(pairs.push((path, content)).drop_last() =~= pairs);
}

/// A path that no entry has is given no content; the path of an entry is
/// given a content.
pub proof fn lemma_lookup_none(pairs: Seq<(Seq<u8>, Seq<u8>)>, path: Seq<u8>)
    ensures
        lookup(pairs, path) is None <==> forall|i: int|
            0 <= i < pairs.len() ==> (#[trigger] pairs[i]).0 != path,
    decreases pairs.len(),
{
    if pairs.len() > 0 {
        lemma_lookup_none(pairs.drop_last(), path);
        if pairs.last().0 != path {
            if lookup(pairs, path) is None {
                assert forall|i: int| 0 <= i < pairs.len() implies (#[trigger] pairs[i]).0
                    != path by {
                    if i < pairs.len() - 1 {
                        assert(pairs.drop_last()[i] == pairs[i]);
                    }
                }
            } else {
                let i = choose|i: int|
                    0 <= i < pairs.drop_last().len() && (#[trigger] pairs.drop_last()[i]).0
                        == path;
                assert(pairs[i] == pairs.drop_last()[i]);
            }
        }
    }
}

/// Where no path occurs twice, each entry's path is given that entry's
/// content.
pub proof fn lemma_lookup_entry(pairs: Seq<(Seq<u8>, Seq<u8>)>, i: int)
    requires
        unique_paths(pairs),
        0 <= i < pairs.len(),
    ensures
        lookup(pairs, pairs[i].0) == Some(pairs[i].1),
    decreases pairs.len(),
{
    if i < pairs.len() - 1 {
        assert(pairs.last() == pairs[pairs.len() - 1]);
        assert(pairs.drop_last()[i] == pairs[i]);
        assert forall|a: int, b: int|
            0 <= a < pairs.drop_last().len() && 0 <= b < pairs.drop_last().len() && a
                != b implies (#[trigger] pairs.drop_last()[a]).0 != (
        #[trigger] pairs.drop_last()[b]).0 by {
            assert(pairs.drop_last()[a] == pairs[a]);
            assert(pairs.drop_last()[b] == pairs[b]);
        }
        lemma_lookup_entry(pairs.drop_last(), i);
    }
}

/// Replacing the content of one entry changes the content of its path and of
/// no other.
pub proof fn lemma_lookup_update(pairs: Seq<(Seq<u8>, Seq<u8>)>, i: int, content: Seq<u8>)
    requires
        unique_paths(pairs),
        0 <= i < pairs.len(),
    ensures
        unique_paths(pairs.update(i, (pairs[i].0, content))),
        forall|q: Seq<u8>| #[trigger]
            lookup(pairs.update(i, (pairs[i].0, content)), q) == if q == pairs[i].0 {
                Some(content)
            } else {
                lookup(pairs, q)
            },
{
    let next = pairs.update(i, (pairs[i].0, content));
    assert(unique_paths(next)) by {
        assert forall|a: int, b: int|
            0 <= a < next.len() && 0 <= b < next.len() && a != b implies (#[trigger] next[a]).0
            != (#[trigger] next[b]).0 by {
            assert(next[a].0 == pairs[a].0);
            assert(next[b].0 == pairs[b].0);
        }
    }
    assert forall|q: Seq<u8>| #[trigger]
        lookup(next, q) == if q == pairs[i].0 {
            Some(content)
        } else {
            lookup(pairs, q)
        } by {
        if q == pairs[i].0 {
            lemma_lookup_entry(next, i);
        } else {
            lemma_lookup_other(pairs, next, q);
        }
    }
}

/// Two lists that agree on the entries of a path give it the same content.
pub proof fn lemma_lookup_other(
    a: Seq<(Seq<u8>, Seq<u8>)>,
    b: Seq<(Seq<u8>, Seq<u8>)>,
    path: Seq<u8>,
)
    requires
        a.len() == b.len(),
        forall|i: int|
            0 <= i < a.len() ==> (#[trigger] a[i]).0 == (#[trigger] b[i]).0 && (a[i].0 == path
                ==> a[i].1 == b[i].1),
    ensures
        lookup(a, path) == lookup(b, path),
    decreases a.len(),
{
    if a.len() > 0 {
        assert(a.last() == a[a.len() - 1]);
        assert(b.last() == b[b.len() - 1]);
        assert((#[trigger] a[a.len() - 1]).0 == (#[trigger] b[a.len() - 1]).0);
        assert forall|i: int| 0 <= i < a.drop_last().len() implies (#[trigger] a.drop_last()[i]).0
            == (#[trigger] b.drop_last()[i]).0 && (a.drop_last()[i].0 == path
            ==> a.drop_last()[i].1 == b.drop_last()[i].1) by {
            assert(a.drop_last()[i] == a[i]);
            assert(b.drop_last()[i] == b[i]);
            assert((#[trigger] a[i]).0 == (#[trigger] b[i]).0);
        }
        lemma_lookup_other(a.drop_last(), b.drop_last(), path);
    }
}

/// Two maps that give every path the same content are the same map.
pub proof fn lemma_same_content(a: Map<Seq<u8>, Seq<u8>>, b: Map<Seq<u8>, Seq<u8>>)
    requires
        forall|p: Seq<u8>| content_at(a, p) == content_at(b, p),
    ensures
        a == b,
{
    assert forall|p: Seq<u8>| #[trigger] a.dom().contains(p) == b.dom().contains(p) by {
        assert(content_at(a, p) == content_at(b, p));
    }
    assert(a.dom() =~= b.dom());
    assert forall|p: Seq<u8>| a.dom().contains(p) implies #[trigger] a[p] == b[p] by {
        assert(content_at(a, p) == content_at(b, p));
    }
    assert(a =~= b);
}

/// The map of a list of entries gives each path the content that the lookup
/// gives it.
pub proof fn lemma_content_at(pairs: Seq<(Seq<u8>, Seq<u8>)>, path: Seq<u8>)
    ensures
        content_at(files_of(pairs), path) == lookup(pairs, path),
{
}

/// Two lists of entries describe the same files exactly if they give every
/// path the same content.
pub proof fn lemma_files_equal(a: Seq<(Seq<u8>, Seq<u8>)>, b: Seq<(Seq<u8>, Seq<u8>)>)
    ensures
        files_of(a) == files_of(b) <==> forall|p: Seq<u8>| lookup(a, p) == lookup(b, p),
{
    if forall|p: Seq<u8>| lookup(a, p) == lookup(b, p) {
        assert(files_of(a) =~= files_of(b));
    }
    if files_of(a) == files_of(b) {
        assert forall|p: Seq<u8>| lookup(a, p) == lookup(b, p) by {
            assert(files_of(a).dom().contains(p) == files_of(b).dom().contains(p));
            if lookup(a, p) is Some {
                assert(files_of(a)[p] == files_of(b)[p]);
            }
        }
    }
}

impl View for Tree {
    type V = Map<Seq<u8>, Seq<u8>>;

    /// The files of the tree: a map from paths to contents.
    open spec fn view(&self) -> Map<Seq<u8>, Seq<u8>> {
        files_of(pairs_of(self.entries@))
    }
}

impl Tree {
    /// The tree is well formed: no path occurs twice.
    pub open spec fn wf(&self) -> bool {
        unique_paths(pairs_of(self.entries@))
    }

    /// The content of a path in this tree.
    pub open spec fn at(&self, path: Seq<u8>) -> Option<Seq<u8>> {
        content_at(self@, path)
    }

    /// The tree without files.
    pub fn new() -> (r: Tree)
        ensures
            r.wf(),
            r.entries@.len() == 0,
            r@ == Map::<Seq<u8>, Seq<u8>>::empty(),
    {
        let r = Tree { entries: Vec::new() };
        assert(r@ =~= Map::<Seq<u8>, Seq<u8>>::empty());
        r
    }

    /// The number of files.
    pub fn len(&self) -> (r: usize)
        ensures
            r == self.entries@.len(),
    {
        self.entries.len()
    }

    /// The position of the entry with the given path.
    pub fn position(&self, path: &[u8]) -> (r: Option<usize>)
        requires
            self.wf(),
        ensures
            match r {
                Some(i) => i < self.entries@.len() && self.entries@[i as int].path@ == path@
                    && self.at(path@) == Some(self.entries@[i as int].content@),
                None => self.at(path@) is None,
            },
    {
        let ghost pairs = pairs_of(self.entries@);
        let mut i: usize = 0;
        while i < self.entries.len()
            invariant
                i <= self.entries@.len(),
                pairs == pairs_of(self.entries@),
                unique_paths(pairs),
                forall|k: int| 0 <= k < i ==> (#[trigger] pairs[k]).0 != path@,
            decreases self.entries@.len() - i,
        {
            if bytes_eq(self.entries[i].path.as_slice(), path) {
                proof {
                    lemma_lookup_entry(pairs, i as int);
                }
                return Some(i);
            }
            i += 1;
        }
        proof {
            lemma_lookup_none(pairs, path@);
        }
        None
    }

    /// The content of the file at `path`, if the tree has one.
    pub fn get(&self, path: &[u8]) -> (r: Option<&Vec<u8>>)
        requires
            self.wf(),
        ensures
            match r {
                Some(c) => self.at(path@) == Some(c@),
                None => self.at(path@) is None,
            },
    {
        match self.position(path) {
            Some(i) => Some(&self.entries[i].content),
            None => None,
        }
    }

    /// Writes `content` at `path`, replacing what was there.
    pub fn set(&mut self, path: &[u8], content: &[u8])
        requires
            old(self).wf(),
        ensures
            final(self).wf(),
            final(self)@ == old(self)@.insert(path@, content@),
    {
        let ghost before = pairs_of(self.entries@);
        let entry = TreeEntry { path: bytes_to_vec(path), content: bytes_to_vec(content) };
        match self.position(path) {
            Some(i) => {
                self.entries.set(i, entry);
                proof {
                    lemma_lookup_update(before, i as int, content@);
                    assert(pairs_of(self.entries@) =~= before.update(
                        i as int,
                        (before[i as int].0, content@),
                    ));
                }
            },
            None => {
                self.entries.push(entry);
                proof {
                    lemma_lookup_push(before, path@, content@);
                    lemma_lookup_none(before, path@);
                    assert(pairs_of(self.entries@) =~= before.push((path@, content@)));
                }
            },
        }
        assert(self@ =~= old(self)@.insert(path@, content@));
    }

    /// A copy of the tree.
    pub fn copy(&self) -> (r: Tree)
        ensures
            pairs_of(r.entries@) == pairs_of(self.entries@),
            r@ == self@,
            r.wf() == self.wf(),
    {
        let mut entries: Vec<TreeEntry> = Vec::new();
        let mut i: usize = 0;
        while i < self.entries.len()
            invariant
                i <= self.entries@.len(),
                entries@.len() == i,
                pairs_of(entries@) == pairs_of(self.entries@).take(i as int),
            decreases self.entries@.len() - i,
        {
            let e = &self.entries[i];
            let ghost before = entries@;
            entries.push(
                TreeEntry {
                    path: bytes_to_vec(e.path.as_slice()),
                    content: bytes_to_vec(e.content.as_slice()),
                },
            );
            assert forall|k: int| 0 <= k < i + 1 implies pairs_of(entries@)[k] == pairs_of(
                self.entries@,
            ).take(i + 1)[k] by {
                if k < i {
                    assert(entries@[k] == before[k]);
                    assert(pairs_of(before)[k] == pairs_of(self.entries@).take(i as int)[k]);
                }
            }
            assert(pairs_of(entries@) =~= pairs_of(self.entries@).take(i + 1));
            i += 1;
        }
        assert(pairs_of(self.entries@).take(i as int) =~= pairs_of(self.entries@));
        Tree { entries }
    }

    /// Whether every file of this tree is in `other` with the same content.
    fn within(&self, other: &Tree) -> (r: bool)
        requires
            self.wf(),
            other.wf(),
        ensures
            r == forall|p: Seq<u8>| self.at(p) is Some ==> self.at(p) == other.at(p),
    {
        let ghost pairs = pairs_of(self.entries@);
        let mut i: usize = 0;
        while i < self.entries.len()
            invariant
                i <= self.entries@.len(),
                self.wf(),
                other.wf(),
                pairs == pairs_of(self.entries@),
                forall|k: int| 0 <= k < i ==> other.at((#[trigger] pairs[k]).0) == Some(pairs[k].1),
            decreases self.entries@.len() - i,
        {
            let e = &self.entries[i];
            proof {
                lemma_lookup_entry(pairs, i as int);
            }
            let same = match other.get(e.path.as_slice()) {
                Some(c) => bytes_eq(c.as_slice(), e.content.as_slice()),
                None => false,
            };
            if !same {
                assert(self.at(pairs[i as int].0) == Some(pairs[i as int].1));
                return false;
            }
            i += 1;
        }
        proof {
            assert forall|p: Seq<u8>| self.at(p) is Some implies self.at(p) == other.at(p) by {
                lemma_lookup_none(pairs, p);
                let k = choose|k: int| 0 <= k < pairs.len() && (#[trigger] pairs[k]).0 == p;
                lemma_lookup_entry(pairs, k);
            }
        }
        true
    }

    /// Whether two trees hold the same files.
    pub fn same(&self, other: &Tree) -> (r: bool)
        requires
            self.wf(),
            other.wf(),
        ensures
            r == (self@ == other@),
    {
        let r = self.within(other) && other.within(self);
        proof {
            if r {
                let a = pairs_of(self.entries@);
                let b = pairs_of(other.entries@);
                assert forall|p: Seq<u8>| lookup(a, p) == lookup(b, p) by {
                    lemma_content_at(a, p);
                    lemma_content_at(b, p);
                    assert(self.at(p) is Some ==> self.at(p) == other.at(p));
                    assert(other.at(p) is Some ==> other.at(p) == self.at(p));
                }
                lemma_files_equal(a, b);
            } else {
                assert(self@ == other@ ==> forall|p: Seq<u8>| self.at(p) == other.at(p));
            }
        }
        r
    }
}

} // verus!
