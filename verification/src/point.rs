//! Positions in the source text.

use vstd::prelude::*;

verus! {

/// A row/column position in the source text. Rows and columns count from
/// zero; a column counts bytes from the start of its row.
#[derive(Clone, Copy, Debug, PartialEq, Eq, Hash, Structural)]
pub struct Point {
    pub row: u32,
    pub column: u32,
}

impl Point {
    /// `self` comes strictly before `other` in reading order.
    pub open spec fn before(self, other: Point) -> bool {
        self.row < other.row || (self.row == other.row && self.column < other.column)
    }

    /// `self` comes before `other` in reading order, or is the same position.
    pub open spec fn not_after(self, other: Point) -> bool {
        self.row < other.row || (self.row == other.row && self.column <= other.column)
    }

    /// The position at `row` and `column`.
    pub fn new(row: u32, column: u32) -> (p: Point)
        ensures
            p == (Point { row, column }),
    {
        Point { row, column }
    }

    /// Whether `self` comes strictly before `other`.
    pub fn is_before(&self, other: &Point) -> (r: bool)
        ensures
            r == self.before(*other),
    {
        self.row < other.row || (self.row == other.row && self.column < other.column)
    }

    /// Whether `self` comes before `other` or is the same position.
    pub fn is_not_after(&self, other: &Point) -> (r: bool)
        ensures
            r == self.not_after(*other),
    {
        self.row < other.row || (self.row == other.row && self.column <= other.column)
    }
}

} // verus!
