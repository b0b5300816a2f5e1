//! One sort-key column of an index.

use crate::index::definitions::direction::Direction;
use crate::path::{SPath, SegmentView};
use vstd::prelude::*;

verus! {

/// A sort-key column: a path relative to an indexed entity, and its direction.
#[derive(Clone, Debug)]
pub struct IndexColumn {
    path: SPath,
    direction: Direction,
}

impl View for IndexColumn {
    type V = (Seq<SegmentView>, Direction);

    closed spec fn view(&self) -> (Seq<SegmentView>, Direction) {
        (self.path@, self.direction)
    }
}

impl IndexColumn {
    /// A column reading `path` in `direction`.
    pub fn new(path: SPath, direction: Direction) -> (c: IndexColumn)
        ensures
            c@ == (path@, direction),
    {
        IndexColumn { path, direction }
    }

    /// The path, relative to the indexed entity.
    pub fn path(&self) -> (p: &SPath)
        ensures
            p@ == self@.0,
    {
        &self.path
    }

    /// A new column with the same path and direction.
    pub fn duplicate(&self) -> (c: IndexColumn)
        ensures
            c@ == self@,
    {
        IndexColumn { path: self.path.duplicate(), direction: self.direction }
    }

    /// Whether `other` reads the same path in the same direction.
    pub fn same_as(&self, other: &IndexColumn) -> (b: bool)
        ensures
            b == (self@ == other@),
    {
        self.path.same_as(&other.path) && self.direction == other.direction
    }

    /// The sort direction.
    pub fn direction(&self) -> (d: Direction)
        ensures
            d == self@.1,
    {
        self.direction
    }
}

} // verus!
