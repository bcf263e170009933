//! Where rows and lines of a text start and end, and where a place of it lies.

use vstd::prelude::*;
use vstd::utf8::*;

use crate::buffer_diff::lemma_edit_within;
use crate::buffer_edit::joined_ranges;
use crate::buffer_syntax::{
    can_indent, indent_bytes, indent_edit, lemma_indent_edit, lemma_row_feed, row_indented,
};
use crate::content::{indent_of, line_len_of, row_start_of, spaces_at};
use crate::edit_laws::{replaced, replaced_upto};
use crate::point::Point;
use crate::rope::{
    Bias, clipped, clipped_point, has_point, lemma_lines_bounds, lemma_newlines_grow, line_end,
    line_start, newlines, offset_of_point, point_at, point_from, row_start_from,
};
use crate::snapshot::is_white_space;
use crate::state::{State, coalesced};

verus! {

/// Rows are counted by the line feeds before them.
pub proof fn law_line_feeds_are_counted(b: Seq<u8>, i: int)
    requires
        0 <= i < b.len(),
    ensures
        newlines(b, 0) == 0,
        newlines(b, i + 1) == newlines(b, i) + if b[i] == 10 {
            1int
        } else {
            0
        },
{
}

/// `start` is where a row of a text starts.
pub open spec fn is_row_start(b: Seq<u8>, row: int, start: int) -> bool {
    &&& 0 <= start <= b.len()
    &&& newlines(b, start) == row
    &&& start == 0 || b[start - 1] == 10
}

/// A row starts at the start of the text or after a line feed, and has as many line
/// feeds before it as its number says. Past the last row is the end of the text.
pub proof fn law_row_start(b: Seq<u8>, row: int)
    requires
        row >= 0,
    ensures
        row <= newlines(b, b.len() as int) ==> is_row_start(b, row, row_start_of(b, row)),
        row > newlines(b, b.len() as int) ==> row_start_of(b, row) == b.len(),
{
    lemma_row_start(b, row, 0);
    if row <= newlines(b, b.len() as int) {
        lemma_row_feed(b, row, 0);
    }
}

proof fn lemma_row_start(b: Seq<u8>, row: int, i: int)
    requires
        0 <= i <= b.len(),
        newlines(b, i) <= row,
    ensures
        i <= row_start_from(b, row, i) <= b.len(),
        newlines(b, row_start_from(b, row, i)) <= row,
        row_start_from(b, row, i) < b.len() ==> newlines(b, row_start_from(b, row, i)) == row,
        row <= newlines(b, b.len() as int) ==> newlines(b, row_start_from(b, row, i)) == row,
        row > newlines(b, b.len() as int) ==> row_start_from(b, row, i) == b.len(),
    decreases b.len() - i,
{
    lemma_newlines_grow(b, i, b.len() as int);
    if i < b.len() && newlines(b, i) < row {
        lemma_row_start(b, row, i + 1);
    }
}

/// A line goes on to the next line feed, or to the end of the text.
pub proof fn law_line_end(b: Seq<u8>, i: int)
    requires
        0 <= i <= b.len(),
    ensures
        i <= line_end(b, i) <= b.len(),
        forall|j: int| i <= j < line_end(b, i) ==> #[trigger] b[j] != 10,
        line_end(b, i) < b.len() ==> b[line_end(b, i)] == 10,
    decreases b.len() - i,
{
    if i < b.len() && b[i] != 10 {
        law_line_end(b, i + 1);
    }
}

/// The line of an offset starts at the start of the text or after a line feed, with
/// none in between.
pub proof fn law_line_start(b: Seq<u8>, i: int)
    requires
        0 <= i <= b.len(),
    ensures
        0 <= line_start(b, i) <= i,
        forall|j: int| line_start(b, i) <= j < i ==> #[trigger] b[j] != 10,
        line_start(b, i) > 0 ==> b[line_start(b, i) - 1] == 10,
    decreases i,
{
    if i > 0 && b[i - 1] != 10 {
        law_line_start(b, i - 1);
    }
}

/// The point of an offset counts the line feeds before it, and the bytes from the
/// start of its line.
pub proof fn law_point_of_offset(b: Seq<u8>, i: int)
    requires
        0 <= i <= b.len(),
        b.len() <= u32::MAX,
    ensures
        point_at(b, i).row == newlines(b, i),
        point_at(b, i).column == i - line_start(b, i),
        is_row_start(b, point_at(b, i).row as int, i - point_at(b, i).column),
{
    lemma_lines_bounds(b, i);
    law_line_start(b, i);
    lemma_same_row(b, line_start(b, i), i);
}

/// Without a line feed in between, two offsets are on the same row.
proof fn lemma_same_row(b: Seq<u8>, i: int, j: int)
    requires
        0 <= i <= j <= b.len(),
        forall|k: int| i <= k < j ==> #[trigger] b[k] != 10,
    ensures
        newlines(b, i) == newlines(b, j),
    decreases j - i,
{
    if i < j {
        lemma_same_row(b, i, j - 1);
        assert(b[j - 1] != 10);
    }
}

proof fn lemma_point_from(b: Seq<u8>, p: Point, i: int)
    requires
        0 <= i <= b.len(),
        exists|k: int| i <= k <= b.len() && #[trigger] point_at(b, k) == p,
    ensures
        i <= point_from(b, p, i) <= b.len(),
        point_at(b, point_from(b, p, i)) == p,
        forall|k: int| i <= k < point_from(b, p, i) ==> #[trigger] point_at(b, k) != p,
    decreases b.len() - i,
{
    let k = choose|k: int| i <= k <= b.len() && #[trigger] point_at(b, k) == p;
    if i < b.len() && point_at(b, i) != p {
        assert(i + 1 <= k);
        lemma_point_from(b, p, i + 1);
    }
}

/// The offset of a point is the first one that has the point.
pub proof fn law_offset_of_point(b: Seq<u8>, p: Point)
    requires
        has_point(b, p),
    ensures
        0 <= offset_of_point(b, p) <= b.len(),
        point_at(b, offset_of_point(b, p)) == p,
        forall|k: int| 0 <= k < offset_of_point(b, p) ==> #[trigger] point_at(b, k) != p,
{
    lemma_point_from(b, p, 0);
}

/// An offset of a text, its point and that point's offset are the same place.
pub proof fn law_offset_and_point(b: Seq<u8>, i: int)
    requires
        0 <= i <= b.len(),
        b.len() <= u32::MAX,
    ensures
        offset_of_point(b, point_at(b, i)) == i,
{
    law_offset_of_point(b, point_at(b, i));
    crate::rope::law_points_are_distinct(b, offset_of_point(b, point_at(b, i)), i);
}

/// An offset that is moved to the left goes to the closest character boundary at or
/// before it, and past the end to the end.
pub proof fn law_clipped_left(b: Seq<u8>, i: int)
    requires
        valid_utf8(b),
        0 <= i,
    ensures
        0 <= clipped(b, i, Bias::Left) <= b.len(),
        is_char_boundary(b, clipped(b, i, Bias::Left)),
        i >= b.len() ==> clipped(b, i, Bias::Left) == b.len(),
        i <= b.len() ==> clipped(b, i, Bias::Left) <= i,
        forall|j: int|
            clipped(b, i, Bias::Left) < j <= i && j < b.len() ==> !#[trigger] is_char_boundary(b, j),
    decreases i,
{
    is_char_boundary_start_end_of_seq(b);
    if 0 < i < b.len() && !is_char_boundary(b, i) {
        law_clipped_left(b, i - 1);
    }
}

/// An offset that is moved to the right goes to the closest character boundary at or
/// after it, and past the end to the end.
pub proof fn law_clipped_right(b: Seq<u8>, i: int)
    requires
        valid_utf8(b),
        0 <= i,
    ensures
        0 <= clipped(b, i, Bias::Right) <= b.len(),
        is_char_boundary(b, clipped(b, i, Bias::Right)),
        i >= b.len() ==> clipped(b, i, Bias::Right) == b.len(),
        i <= b.len() ==> clipped(b, i, Bias::Right) >= i,
        forall|j: int|
            i <= j < clipped(b, i, Bias::Right) ==> !#[trigger] is_char_boundary(b, j),
    decreases b.len() - i,
{
    is_char_boundary_start_end_of_seq(b);
    if i < b.len() && !is_char_boundary(b, i) {
        law_clipped_right(b, i + 1);
    }
}

/// `end` is where the line ends that starts at `start`.
pub open spec fn is_line(b: Seq<u8>, start: int, end: int) -> bool {
    &&& start <= end <= b.len()
    &&& forall|j: int| start <= j < end ==> #[trigger] b[j] != 10
    &&& end < b.len() ==> b[end] == 10
}

/// A point past the last row of a text is moved to the end of the text.
pub proof fn law_clipped_past_the_end(b: Seq<u8>, p: Point, bias: Bias)
    requires
        p.row > newlines(b, b.len() as int),
    ensures
        clipped_point(b, p, bias) == point_at(b, b.len() as int),
{
}

/// A point that is moved into the text stays on its row; it goes to the end of the
/// row if it lies past that, and then to a character boundary.
pub proof fn law_clipped_point(b: Seq<u8>, p: Point, bias: Bias, start: int, end: int)
    requires
        is_row_start(b, p.row as int, start),
        is_line(b, start, end),
    ensures
        start + p.column <= end ==> clipped_point(b, p, bias) == point_at(
            b,
            clipped(b, start + p.column, bias),
        ),
        start + p.column > end ==> clipped_point(b, p, bias) == point_at(
            b,
            clipped(b, end, bias),
        ),
{
    lemma_newlines_grow(b, start, b.len() as int);
    law_row_start(b, p.row as int);
    lemma_one_row_start(b, p.row as int, row_start_of(b, p.row as int), start);
    lemma_one_line_end(b, start, end);
}

/// A line has one end.
proof fn lemma_one_line_end(b: Seq<u8>, start: int, end: int)
    requires
        0 <= start,
        is_line(b, start, end),
    ensures
        line_end(b, start) == end,
{
    law_line_end(b, start);
    if end < line_end(b, start) {
        assert(b[end] != 10);
    } else if line_end(b, start) < end {
        assert(b[line_end(b, start)] != 10);
    }
}

/// A point between characters of the text stays where it is.
pub proof fn law_point_of_the_text_stays(b: Seq<u8>, i: int, bias: Bias)
    requires
        valid_utf8(b),
        b.len() <= u32::MAX,
        0 <= i <= b.len(),
        is_char_boundary(b, i),
    ensures
        clipped_point(b, point_at(b, i), bias) == point_at(b, i),
{
    let p = point_at(b, i);
    law_point_of_offset(b, i);
    lemma_newlines_grow(b, i, b.len() as int);
    law_row_start(b, p.row as int);
    let start = row_start_of(b, p.row as int);
    lemma_one_row_start(b, p.row as int, start, line_start(b, i));
    law_line_end(b, start);
    law_line_start(b, i);
    if line_end(b, start) < i {
        assert(b[line_end(b, start)] != 10);
    }
}

/// A row has one start.
proof fn lemma_one_row_start(b: Seq<u8>, row: int, i: int, j: int)
    requires
        is_row_start(b, row, i),
        is_row_start(b, row, j),
    ensures
        i == j,
{
    if i < j {
        lemma_newlines_grow(b, i, j - 1);
    } else if j < i {
        lemma_newlines_grow(b, j, i - 1);
    }
}

/// The length of a row is how far its line goes on from its start.
pub proof fn law_line_len(b: Seq<u8>, row: int, start: int, end: int)
    requires
        is_row_start(b, row, start),
        is_line(b, start, end),
        end - start <= u32::MAX,
    ensures
        line_len_of(b, row) == end - start,
{
    lemma_newlines_grow(b, start, b.len() as int);
    lemma_lines_bounds(b, start);
    law_row_start(b, row);
    lemma_one_row_start(b, row, row_start_of(b, row), start);
    lemma_one_line_end(b, start, end);
}

/// There are `width` spaces at an offset, and no more.
pub open spec fn is_space_run(b: Seq<u8>, i: int, width: int) -> bool {
    &&& 0 <= width
    &&& i + width <= b.len()
    &&& forall|j: int| i <= j < i + width ==> #[trigger] b[j] == 32
    &&& i + width < b.len() ==> b[i + width] != 32
}

proof fn lemma_space_run(b: Seq<u8>, i: int)
    requires
        0 <= i <= b.len(),
    ensures
        is_space_run(b, i, spaces_at(b, i)),
    decreases b.len() - i,
{
    if i < b.len() && b[i] == 32 {
        lemma_space_run(b, i + 1);
    }
}

/// A row is indented by as many spaces as stand at its start.
pub proof fn law_indent_counts_spaces(b: Seq<u8>, row: int, start: int, width: int)
    requires
        is_row_start(b, row, start),
        is_space_run(b, start, width),
        width <= u32::MAX,
    ensures
        indent_of(b, row) == width,
{
    lemma_newlines_grow(b, start, b.len() as int);
    lemma_lines_bounds(b, start);
    law_row_start(b, row);
    lemma_one_row_start(b, row, row_start_of(b, row), start);
    lemma_space_run(b, start);
    let w = spaces_at(b, start);
    if w < width {
        assert(b[start + w] == 32);
    } else if width < w {
        assert(b[start + width] == 32);
    }
}

/// White space is what Unicode says it is.
pub proof fn law_white_space(c: char)
    ensures
        is_white_space(c) <==> {
            let n = c as u32;
            ||| 0x9 <= n <= 0xd
            ||| 0x2000 <= n <= 0x200a
            ||| n == 0x20 || n == 0x85 || n == 0xa0 || n == 0x1680
            ||| n == 0x2028 || n == 0x2029 || n == 0x202f || n == 0x205f || n == 0x3000
        },
{
}

/// Indenting a row to a column leaves it with that many spaces at its start in place
/// of those that were there, and all other text as it was.
pub proof fn law_row_is_indented(
    s: State,
    row: u32,
    column: u32,
    now: u64,
    start: int,
    width: int,
)
    requires
        valid_utf8(s.text()),
        s.text().len() < usize::MAX,
        can_indent(s, row, column),
        s.history.depth > 0,
        s.history.undo_stack.len() > 0,
        is_row_start(s.text(), row as int, start),
        is_space_run(s.text(), start, width),
        width <= u32::MAX,
    ensures
        row_indented(s, row, column, now).text() == s.text().take(start) + Seq::new(
            column as nat,
            |i: int| 32u8,
        ) + s.text().skip(start + width),
        row_indented(s, row, column, now).history.depth == s.history.depth,
{
    let text = s.text();
    law_row_start(text, row as int);
    lemma_one_row_start(text, row as int, row_start_of(text, row as int), start);
    law_indent_counts_spaces(text, row as int, start, width);
    lemma_indent_edit(text, row, column);
    let edit = indent_edit(text, row, column);
    let joined = joined_ranges(edit.0, edit.1);
    let bytes = encode_utf8(edit.1);
    let spaces = Seq::new(column as nat, |i: int| 32u8);
    let goal = text.take(start) + spaces + text.skip(start + width);
    assert(joined.len() * bytes.len() <= bytes.len()) by (nonlinear_arith)
        requires
            joined.len() <= 1,
    ;
    lemma_edit_within(s, edit.0, edit.1, now);
    if column == width {
        assert(joined.len() == 0);
        assert(goal =~= text) by {
            assert forall|i: int| 0 <= i < text.len() implies goal[i] == text[i] by {
                if start <= i < start + width {
                    assert(text[i] == 32);
                }
            }
        }
    } else {
        let inserts = bytes.len() > 0;
        if column > width {
            let given = indent_bytes(start > 0, column - width);
            decode_utf8_encode_utf8(given);
            assert(bytes == given);
        } else {
            assert(bytes =~= Seq::<u8>::empty()) by {
                reveal_with_fuel(encode_utf8, 2);
            }
        }
        assert(coalesced(edit.0, inserts, 0) =~= Seq::<(int, int)>::empty());
        assert(joined =~= edit.0);
        let range = joined[0];
        let done = replaced(text, joined, bytes);
        assert(replaced_upto(text, joined, bytes, 0, range.0) == text.subrange(0, range.0));
        assert(done == text.subrange(0, range.0) + bytes + text.subrange(
            range.1,
            text.len() as int,
        ));
        assert(done =~= goal) by {
            assert(done.len() == goal.len());
            assert forall|i: int| 0 <= i < done.len() implies done[i] == goal[i] by {
                if column > width {
                    if start > 0 && i == start - 1 {
                        assert(text[start - 1] == 10);
                    }
                    if start + (column - width) <= i < start + column {
                        assert(text[i - (column - width)] == 32);
                    }
                } else if start <= i < start + column {
                    assert(text[i + (width - column)] == 32);
                }
            }
        }
    }
}

/// A row starts and ends in one place.
pub proof fn lemma_row(b: Seq<u8>, row: int, start: int, end: int)
    requires
        is_row_start(b, row, start),
        is_line(b, start, end),
    ensures
        row_start_of(b, row) == start,
        line_end(b, start) == end,
{
    lemma_newlines_grow(b, start, b.len() as int);
    lemma_lines_bounds(b, start);
    law_row_start(b, row);
    lemma_one_row_start(b, row, row_start_of(b, row), start);
    lemma_one_line_end(b, start, end);
}

} // verus!
