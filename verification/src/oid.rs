//! Object identifiers.

use vstd::prelude::*;

verus! {

/// The identity of an object in an object database.
///
/// The database is content-addressed: within one database equal content has
/// the same identifier and different content has different identifiers, so an
/// identifier plays the part of a hash of the content.
#[derive(Clone, Copy, Debug, PartialEq, Eq, Structural, Hash)]
pub struct Oid {
    pub index: usize,
}

impl Oid {
    /// The identifier with the given position in the database.
    pub fn new(index: usize) -> (r: Oid)
        ensures
            r.index == index,
    {
        Oid { index }
    }
}

} // verus!
