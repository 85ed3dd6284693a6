//! The wall around a cave.

use crate::point::Point;
use vstd::prelude::*;

verus! {

/// The solid tiles that enclose one cave of a floor.
#[derive(Clone, Debug)]
pub struct Border {
    /// The number that tells this border from the others of its floor.
    pub id: BorderId,
    /// The points of the border, each of them once.
    pub points: Vec<Point>,
}

/// A number that tells the borders of one floor apart.
#[derive(Debug, Hash, Clone, Copy, PartialEq, Eq, PartialOrd, Ord, Structural)]
pub struct BorderId(usize);

impl BorderId {
    /// The number behind the id.
    pub closed spec fn value(self) -> usize {
        self.0
    }

    /// An id is known by its number.
    pub broadcast proof fn lemma_value_injective(self, other: BorderId)
        requires
            #[trigger] self.value() == #[trigger] other.value(),
        ensures
            self == other,
    {
    }

    /// The id with the given number.
    pub fn new(id: usize) -> (r: Self)
        ensures
            r.value() == id,
    {
        Self(id)
    }

    /// The number behind the id.
    pub fn index(self) -> (r: usize)
        ensures
            r == self.value(),
    {
        self.0
    }
}

impl Border {
    /// The points of the border, as a set.
    pub open spec fn point_set(self) -> Set<Point> {
        self.points@.to_set()
    }

    /// No point is listed twice.
    pub open spec fn wf(self) -> bool {
        self.points@.no_duplicates()
    }
}

} // verus!
