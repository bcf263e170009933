//! Positions in a text as a row and a column.

use vstd::prelude::*;

verus! {

/// A row, and a number of bytes from the start of that row.
#[derive(Clone, Copy, Debug, PartialEq, Eq, Structural, Hash)]
pub struct Point {
    pub row: u32,
    pub column: u32,
}

/// `a` comes before `b`.
pub open spec fn point_lt(a: Point, b: Point) -> bool {
    a.row < b.row || (a.row == b.row && a.column < b.column)
}

/// `a` comes before `b` or is `b`.
pub open spec fn point_le(a: Point, b: Point) -> bool {
    a.row < b.row || (a.row == b.row && a.column <= b.column)
}

/// A row or a column; one that is too large for the type is given as the largest.
pub open spec fn counted(n: int) -> u32 {
    if n < 0 {
        0
    } else if n > u32::MAX {
        u32::MAX
    } else {
        n as u32
    }
}

/// Where `b` lies if it is counted from `a` on.
pub open spec fn point_sum(a: Point, b: Point) -> Point {
    if b.row == 0 {
        Point { row: a.row, column: counted(a.column + b.column) }
    } else {
        Point { row: counted(a.row + b.row), column: b.column }
    }
}

/// Where `a` lies counted from `b` on.
pub open spec fn point_difference(a: Point, b: Point) -> Point {
    if a.row == b.row {
        Point { row: 0, column: counted(a.column - b.column) }
    } else {
        Point { row: counted(a.row - b.row), column: a.column }
    }
}

/// The sum of two numbers; the largest number if it is too large.
fn saturating_sum(a: u32, b: u32) -> (sum: u32)
    ensures
        sum == counted(a + b),
{
    if a <= u32::MAX - b {
        a + b
    } else {
        u32::MAX
    }
}

/// The difference of two numbers; zero if it is negative.
fn saturating_difference(a: u32, b: u32) -> (difference: u32)
    ensures
        difference == counted(a - b),
{
    if a >= b {
        a - b
    } else {
        0
    }
}

impl Point {
    pub fn new(row: u32, column: u32) -> (point: Point)
        ensures
            point.row == row,
            point.column == column,
    {
        Point { row, column }
    }

    /// The start of a text.
    pub fn zero() -> (point: Point)
        ensures
            point.row == 0,
            point.column == 0,
    {
        Point { row: 0, column: 0 }
    }

    /// The point that lies `other` after this one.
    pub fn plus(self, other: Point) -> (sum: Point)
        ensures
            sum == point_sum(self, other),
    {
        if other.row == 0 {
            Point { row: self.row, column: saturating_sum(self.column, other.column) }
        } else {
            Point { row: saturating_sum(self.row, other.row), column: other.column }
        }
    }

    /// This point, counted from `other` on.
    pub fn minus(self, other: Point) -> (difference: Point)
        ensures
            difference == point_difference(self, other),
    {
        if self.row == other.row {
            Point { row: 0, column: saturating_difference(self.column, other.column) }
        } else {
            Point { row: saturating_difference(self.row, other.row), column: self.column }
        }
    }

    /// The point after one more byte.
    pub fn next(self, is_newline: bool) -> (point: Point)
        ensures
            point == if is_newline {
                (Point { row: counted(self.row + 1), column: 0 })
            } else {
                (Point { row: self.row, column: counted(self.column + 1) })
            },
    {
        if is_newline {
            Point { row: saturating_sum(self.row, 1), column: 0 }
        } else {
            Point { row: self.row, column: saturating_sum(self.column, 1) }
        }
    }

    /// Whether this point comes before `other`.
    pub fn is_before(&self, other: &Point) -> (b: bool)
        ensures
            b == point_lt(*self, *other),
    {
        self.row < other.row || (self.row == other.row && self.column < other.column)
    }
}

/// What is counted from a point on and then added to it gives the point
/// again.
pub proof fn law_difference_then_sum(a: Point, b: Point)
    requires
        point_le(b, a),
    ensures
        point_sum(b, point_difference(a, b)) == a,
{
}

/// Points are counted in the same way however they are grouped.
pub proof fn law_sum_is_associative(a: Point, b: Point, c: Point)
    ensures
        point_sum(point_sum(a, b), c) == point_sum(a, point_sum(b, c)),
{
}

} // verus!
