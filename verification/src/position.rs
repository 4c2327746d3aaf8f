//! The first occurrence of a value in a sequence.

use vstd::prelude::*;

verus! {

/// The position of the first occurrence of `x` in `s`, or the length of `s`
/// where `x` does not occur.
pub open spec fn position_of<A>(s: Seq<A>, x: A) -> int
    decreases s.len(),
{
    if s.len() == 0 {
        0
    } else {
        let before = position_of(s.drop_last(), x);
        if before < s.len() - 1 {
            before
        } else if s.last() == x {
            s.len() - 1
        } else {
            s.len() as int
        }
    }
}

pub proof fn lemma_position_of<A>(s: Seq<A>, x: A)
    ensures
        0 <= position_of(s, x) <= s.len(),
        position_of(s, x) < s.len() ==> s[position_of(s, x)] == x,
        forall|i: int| 0 <= i < position_of(s, x) ==> s[i] != x,
    decreases s.len(),
{
    if s.len() > 0 {
        lemma_position_of(s.drop_last(), x);
        let before = position_of(s.drop_last(), x);
        assert forall|i: int| 0 <= i < position_of(s, x) implies s[i] != x by {
            if i < s.len() - 1 {
                assert(s.drop_last()[i] == s[i]);
            }
        }
        if before < s.len() - 1 {
            assert(s.drop_last()[before] == s[before]);
        }
    }
}

/// A value that occurs at a position, and at none before it, occurs there
/// first.
pub proof fn lemma_position_is<A>(s: Seq<A>, x: A, i: int)
    requires
        0 <= i <= s.len(),
        i < s.len() ==> s[i] == x,
        forall|k: int| 0 <= k < i ==> s[k] != x,
    ensures
        position_of(s, x) == i,
{
    lemma_position_of(s, x);
}

} // verus!
