//! The unresolved conflicts of the working directory.

use crate::bytes::{bytes_eq, bytes_to_vec};
use crate::error::Error;
use crate::merge::paths_of;
use vstd::prelude::*;

verus! {

/// The paths of the working directory whose conflicts are not yet resolved.
/// While there is one, nothing may be rewritten.
#[derive(Debug)]
pub struct Conflicts {
    pub paths: Vec<Vec<u8>>,
}

impl View for Conflicts {
    type V = Set<Seq<u8>>;

    /// The set of unresolved paths.
    open spec fn view(&self) -> Set<Seq<u8>> {
        paths_of(self.paths@).to_set()
    }
}

impl Conflicts {
    /// No unresolved path.
    pub fn new() -> (r: Conflicts)
        ensures
            r.paths@.len() == 0,
            r@ == Set::<Seq<u8>>::empty(),
    {
        let r = Conflicts { paths: Vec::new() };
        assert(r@ =~= Set::<Seq<u8>>::empty());
        r
    }

    /// Whether `path` is unresolved.
    pub fn contains(&self, path: &[u8]) -> (r: bool)
        ensures
            r == self@.contains(path@),
    {
        let mut i: usize = 0;
        while i < self.paths.len()
            invariant
                i <= self.paths@.len(),
                forall|k: int| 0 <= k < i ==> paths_of(self.paths@)[k] != path@,
            decreases self.paths@.len() - i,
        {
            if bytes_eq(self.paths[i].as_slice(), path) {
                assert(paths_of(self.paths@)[i as int] == path@);
                return true;
            }
            i += 1;
        }
        false
    }

    /// Whether any conflict is unresolved.
    pub fn is_resolving(&self) -> (r: bool)
        ensures
            r == !(self@ == Set::<Seq<u8>>::empty()),
    {
        let r = self.paths.len() > 0;
        proof {
            if r {
                assert(self@.contains(paths_of(self.paths@)[0]));
            } else {
                assert(self@ =~= Set::<Seq<u8>>::empty());
            }
        }
        r
    }

    /// Fails while a conflict is unresolved.
    pub fn assure_resolved(&self) -> (r: Result<(), Error>)
        ensures
            match r {
                Ok(_) => self@ == Set::<Seq<u8>>::empty(),
                Err(e) => e == Error::UnresolvedConflicts && self@ != Set::<Seq<u8>>::empty(),
            },
    {
        if self.is_resolving() {
            Err(Error::UnresolvedConflicts)
        } else {
            Ok(())
        }
    }

    /// Records that `path` holds a conflict.
    pub fn mark(&mut self, path: &[u8])
        ensures
            final(self)@ == old(self)@.insert(path@),
    {
        let ghost before = paths_of(self.paths@);
        self.paths.push(bytes_to_vec(path));
        proof {
            assert(paths_of(self.paths@) =~= before.push(path@));
            assert forall|q: Seq<u8>| self@.contains(q) == old(self)@.insert(path@).contains(
                q,
            ) by {
                if before.contains(q) {
                    let k = choose|k: int| 0 <= k < before.len() && before[k] == q;
                    assert(before.push(path@)[k] == q);
                }
                if q == path@ {
                    assert(before.push(path@)[before.len() as int] == q);
                }
                if before.push(path@).contains(q) {
                    let k = choose|k: int|
                        0 <= k < before.push(path@).len() && before.push(path@)[k] == q;
                    if k < before.len() {
                        assert(before[k] == q);
                    }
                }
            }
            assert(self@ =~= old(self)@.insert(path@));
        }
    }

    /// Records that the conflict at `path` is resolved.
    pub fn resolve(&mut self, path: &[u8])
        ensures
            final(self)@ == old(self)@.remove(path@),
    {
        let ghost before = paths_of(self.paths@);
        let mut kept: Vec<Vec<u8>> = Vec::new();
        let mut i: usize = 0;
        while i < self.paths.len()
            invariant
                *self == *old(self),
                before == paths_of(self.paths@),
                i <= self.paths@.len(),
                forall|q: Seq<u8>| #[trigger]
                    paths_of(kept@).contains(q) == (q != path@ && before.take(i as int).contains(
                        q,
                    )),
            decreases self.paths@.len() - i,
        {
            let ghost kept_before = paths_of(kept@);
            let keep = !bytes_eq(self.paths[i].as_slice(), path);
            if keep {
                kept.push(bytes_to_vec(self.paths[i].as_slice()));
                assert(paths_of(kept@) =~= kept_before.push(before[i as int]));
            }
            proof {
                assert(before.take(i + 1) =~= before.take(i as int).push(before[i as int]));
                assert forall|q: Seq<u8>| #[trigger]
                    paths_of(kept@).contains(q) == (q != path@ && before.take(i + 1).contains(
                        q,
                    )) by {
                    lemma_push_contains(before.take(i as int), before[i as int], q);
                    lemma_push_contains(kept_before, before[i as int], q);
                    assert(kept_before.contains(q) == (q != path@ && before.take(
                        i as int,
                    ).contains(q)));
                }
            }
            i += 1;
        }
        self.paths = kept;
        proof {
            assert(before.take(before.len() as int) =~= before);
            assert forall|q: Seq<u8>| self@.contains(q) == old(self)@.remove(path@).contains(
                q,
            ) by {
                assert(paths_of(kept@).contains(q) == (q != path@ && before.contains(q)));
            }
            assert(self@ =~= old(self)@.remove(path@));
        }
    }
}

proof fn lemma_push_contains(s: Seq<Seq<u8>>, p: Seq<u8>, q: Seq<u8>)
    ensures
        s.push(p).contains(q) == (s.contains(q) || q == p),
{
    if s.contains(q) {
        let k = choose|k: int| 0 <= k < s.len() && s[k] == q;
        assert(s.push(p)[k] == q);
    }
    if q == p {
        assert(s.push(p)[s.len() as int] == q);
    }
    if s.push(p).contains(q) {
        let k = choose|k: int| 0 <= k < s.push(p).len() && s.push(p)[k] == q;
        if k < s.len() {
            assert(s[k] == q);
        }
    }
}

} // verus!
