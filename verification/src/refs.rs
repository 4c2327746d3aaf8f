//! References: names for commits.

use crate::bytes::{bytes_eq, bytes_to_vec};
use crate::error::Error;
use crate::oid::Oid;
use crate::position::{lemma_position_is, lemma_position_of, position_of};
use vstd::prelude::*;

verus! {

/// A name for a commit.
#[derive(Debug)]
pub struct Reference {
    pub name: Vec<u8>,
    pub target: Oid,
}

/// The references of a repository.
#[derive(Debug)]
pub struct References {
    pub entries: Vec<Reference>,
}

/// The names of a list of references, in their order.
pub open spec fn reference_names(entries: Seq<Reference>) -> Seq<Seq<u8>> {
    Seq::new(entries.len(), |i: int| entries[i].name@)
}

impl References {
    /// The commit that a name stands for: the target of the first reference
    /// with that name.
    pub open spec fn resolve(&self, name: Seq<u8>) -> Option<Oid> {
        let k = position_of(reference_names(self.entries@), name);
        if k < self.entries@.len() {
            Some(self.entries@[k].target)
        } else {
            None
        }
    }

    /// No references.
    pub fn new() -> (r: References)
        ensures
            r.entries@.len() == 0,
            forall|name: Seq<u8>| r.resolve(name) is None,
    {
        let r = References { entries: Vec::new() };
        assert forall|name: Seq<u8>| r.resolve(name) is None by {
            lemma_position_of(reference_names(r.entries@), name);
        }
        r
    }

    /// The position of the first reference with this name.
    fn position(&self, name: &[u8]) -> (r: usize)
        ensures
            r == position_of(reference_names(self.entries@), name@),
            r <= self.entries@.len(),
    {
        let ghost names = reference_names(self.entries@);
        let mut i: usize = 0;
        while i < self.entries.len()
            invariant
                i <= self.entries@.len(),
                names == reference_names(self.entries@),
                forall|k: int| 0 <= k < i ==> names[k] != name@,
            decreases self.entries@.len() - i,
        {
            if bytes_eq(self.entries[i].name.as_slice(), name) {
                proof {
                    lemma_position_is(names, name@, i as int);
                }
                return i;
            }
            i += 1;
        }
        proof {
            lemma_position_is(names, name@, i as int);
        }
        i
    }

    /// The commit that `name` stands for.
    pub fn find(&self, name: &[u8]) -> (r: Result<Oid, Error>)
        ensures
            match r {
                Ok(id) => self.resolve(name@) == Some(id),
                Err(e) => self.resolve(name@) is None && e == Error::NotFound,
            },
    {
        let k = self.position(name);
        if k < self.entries.len() {
            Ok(self.entries[k].target)
        } else {
            Err(Error::NotFound)
        }
    }

    /// Lets `name` stand for `target`, whatever it stood for before.
    pub fn set(&mut self, name: &[u8], target: Oid)
        ensures
            forall|q: Seq<u8>| #[trigger]
                final(self).resolve(q) == if q == name@ {
                    Some(target)
                } else {
                    old(self).resolve(q)
                },
    {
        let ghost names = reference_names(self.entries@);
        let k = self.position(name);
        let entry = Reference { name: bytes_to_vec(name), target };
        proof {
            lemma_position_of(names, name@);
        }
        if k < self.entries.len() {
            self.entries.set(k, entry);
            proof {
                assert(reference_names(self.entries@) =~= names);
                assert forall|q: Seq<u8>| #[trigger]
                    self.resolve(q) == if q == name@ {
                        Some(target)
                    } else {
                        old(self).resolve(q)
                    } by {
                    lemma_position_of(names, q);
                }
            }
        } else {
            self.entries.push(entry);
            proof {
                assert(reference_names(self.entries@) =~= names.push(name@));
                assert(names.push(name@).drop_last() =~= names);
                assert forall|q: Seq<u8>| #[trigger]
                    self.resolve(q) == if q == name@ {
                        Some(target)
                    } else {
                        old(self).resolve(q)
                    } by {
                    lemma_position_of(names, q);
                }
            }
        }
    }
}

} // verus!
