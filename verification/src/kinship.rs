//! Order-free keys for kinship coefficients between pairs of members.

use vstd::prelude::*;

verus! {

/// An unordered pair of node ids, stored with the smaller one first.
#[derive(PartialEq, Eq, Structural, Copy, Clone, Debug, Hash)]
pub struct KinshipKey {
    pub lower: u32,
    pub higher: u32,
}

impl KinshipKey {
    /// The key of an unordered pair: the same two ids in either order
    /// give the same key.
    pub fn new(id1: u32, id2: u32) -> (r: KinshipKey)
        ensures
            r.lower == (if id1 < id2 {
                id1
            } else {
                id2
            }),
            r.higher == (if id1 < id2 {
                id2
            } else {
                id1
            }),
            r.lower <= r.higher,
    {
        if id1 < id2 {
            KinshipKey { lower: id1, higher: id2 }
        } else {
            KinshipKey { lower: id2, higher: id1 }
        }
    }

    /// The two ids, smaller first.
    pub fn values(&self) -> (r: (u32, u32))
        ensures
            r.0 == self.lower,
            r.1 == self.higher,
    {
        (self.lower, self.higher)
    }
}

} // verus!
