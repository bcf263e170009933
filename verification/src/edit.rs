//! Differences between two versions of a buffer.

use std::ops::Range;

use vstd::prelude::*;

use crate::point::{Point, point_difference};

verus! {

/// A run of bytes of the old text that was replaced by a run of bytes of the
/// new text.
#[derive(Debug, PartialEq, Eq)]
pub struct Edit {
    pub old_bytes: Range<usize>,
    pub new_bytes: Range<usize>,
    pub old_lines: Range<Point>,
}

impl Clone for Edit {
    fn clone(&self) -> (copy: Self)
        ensures
            copy == *self,
    {
        Edit {
            old_bytes: self.old_bytes.start..self.old_bytes.end,
            new_bytes: self.new_bytes.start..self.new_bytes.end,
            old_lines: self.old_lines.start..self.old_lines.end,
        }
    }
}

/// How many bytes longer the new text is.
pub open spec fn delta_of(edit: Edit) -> int {
    (edit.new_bytes.end - edit.new_bytes.start) - (edit.old_bytes.end - edit.old_bytes.start)
}

/// The edit that puts back what was replaced adds what this one takes away.
pub proof fn law_delta_of_reverse(edit: Edit, reverse: Edit)
    requires
        reverse.old_bytes == edit.new_bytes,
        reverse.new_bytes == edit.old_bytes,
    ensures
        delta_of(reverse) == -delta_of(edit),
{
}

impl Edit {
    /// How many bytes longer the new text is.
    pub fn delta(&self) -> (delta: isize)
        requires
            self.old_bytes.start <= self.old_bytes.end,
            self.new_bytes.start <= self.new_bytes.end,
            self.old_bytes.end - self.old_bytes.start <= isize::MAX,
            self.new_bytes.end - self.new_bytes.start <= isize::MAX,
        ensures
            delta == delta_of(*self),
    {
        self.inserted_bytes() as isize - self.deleted_bytes() as isize
    }

    /// How many bytes of the old text were replaced.
    pub fn deleted_bytes(&self) -> (bytes: usize)
        requires
            self.old_bytes.start <= self.old_bytes.end,
        ensures
            bytes == self.old_bytes.end - self.old_bytes.start,
    {
        self.old_bytes.end - self.old_bytes.start
    }

    /// How many bytes of the new text replace them.
    pub fn inserted_bytes(&self) -> (bytes: usize)
        requires
            self.new_bytes.start <= self.new_bytes.end,
        ensures
            bytes == self.new_bytes.end - self.new_bytes.start,
    {
        self.new_bytes.end - self.new_bytes.start
    }

    /// The point where the replaced text ends, counted from its start.
    pub fn deleted_lines(&self) -> (lines: Point)
        ensures
            lines == point_difference(self.old_lines.end, self.old_lines.start),
    {
        self.old_lines.end.minus(self.old_lines.start)
    }
}

} // verus!
