//! Text: a sequence of bytes that is valid UTF-8, addressed by byte offset or
//! by row and column.

use vstd::prelude::*;
use vstd::utf8::*;

use crate::point::{Point, counted, point_lt, point_sum};

verus! {

/// Which way a position leans, or is moved, when there is a choice.
#[derive(Clone, Copy, Debug, PartialEq, Eq, Structural, Hash)]
pub enum Bias {
    Left,
    Right,
}

/// The number of bytes of a text, and the point where it ends.
#[derive(Clone, Copy, Debug, PartialEq, Eq, Structural)]
pub struct TextSummary {
    pub bytes: usize,
    pub lines: Point,
}

/// The byte of a line feed.
pub const NEWLINE: u8 = 10;

/// How many line feeds stand before offset `i`.
pub open spec fn newlines(b: Seq<u8>, i: int) -> int
    decreases i,
{
    if i <= 0 {
        0
    } else {
        newlines(b, i - 1) + if b[i - 1] == NEWLINE {
            1int
        } else {
            0
        }
    }
}

/// Where the line starts that offset `i` lies on.
pub open spec fn line_start(b: Seq<u8>, i: int) -> int
    decreases i,
{
    if i <= 0 {
        0
    } else if b[i - 1] == NEWLINE {
        i
    } else {
        line_start(b, i - 1)
    }
}

/// The point of offset `i`. A row or a column that is too large for its type is
/// given as the largest.
pub open spec fn point_at(b: Seq<u8>, i: int) -> Point {
    Point { row: counted(newlines(b, i)), column: counted(i - line_start(b, i)) }
}

/// Some offset of `b` has the point `p`.
pub open spec fn has_point(b: Seq<u8>, p: Point) -> bool {
    exists|i: int| 0 <= i <= b.len() && #[trigger] point_at(b, i) == p
}

/// A text that can be held.
pub open spec fn is_text(b: Seq<u8>) -> bool {
    valid_utf8(b) && b.len() <= usize::MAX
}

/// The first offset from `i` on that has the point `p`; the end if there is none.
pub open spec fn point_from(b: Seq<u8>, p: Point, i: int) -> int
    decreases b.len() - i,
{
    if i >= b.len() || point_at(b, i) == p {
        i
    } else {
        point_from(b, p, i + 1)
    }
}

/// The offset of the point `p`; the first one, should there be several.
pub open spec fn offset_of_point(b: Seq<u8>, p: Point) -> int {
    point_from(b, p, 0)
}

/// The summary of the text `b`.
pub open spec fn summary_of(b: Seq<u8>) -> TextSummary {
    TextSummary { bytes: b.len() as usize, lines: point_at(b, b.len() as int) }
}

/// The closest character boundary at or before `i`.
pub open spec fn boundary_before(b: Seq<u8>, i: int) -> int
    decreases i,
{
    if i <= 0 {
        0
    } else if i >= b.len() {
        b.len() as int
    } else if is_char_boundary(b, i) {
        i
    } else {
        boundary_before(b, i - 1)
    }
}

/// The closest character boundary at or after `i`.
pub open spec fn boundary_after(b: Seq<u8>, i: int) -> int
    decreases b.len() - i,
{
    if i >= b.len() {
        b.len() as int
    } else if is_char_boundary(b, i) {
        i
    } else {
        boundary_after(b, i + 1)
    }
}

/// The offset `i`, moved to a character boundary in the direction of `bias`.
pub open spec fn clipped(b: Seq<u8>, i: int, bias: Bias) -> int {
    match bias {
        Bias::Left => boundary_before(b, i),
        Bias::Right => boundary_after(b, i),
    }
}

/// Where row `row` starts; the end of the text if there is no such row.
pub open spec fn row_start_from(b: Seq<u8>, row: int, i: int) -> int
    decreases b.len() - i,
{
    if i >= b.len() || newlines(b, i) >= row {
        i
    } else {
        row_start_from(b, row, i + 1)
    }
}

/// The first line feed at or after `i`; the end of the text if there is none.
pub open spec fn line_end(b: Seq<u8>, i: int) -> int
    decreases b.len() - i,
{
    if i >= b.len() || b[i] == NEWLINE {
        i
    } else {
        line_end(b, i + 1)
    }
}

/// The point `p`, moved into the text: past the last row to the end, past
/// the end of its row to the end of that row, and then to a character
/// boundary in the direction of `bias`.
pub open spec fn clipped_point(b: Seq<u8>, p: Point, bias: Bias) -> Point {
    if p.row > newlines(b, b.len() as int) {
        point_at(b, b.len() as int)
    } else {
        let start = row_start_from(b, p.row as int, 0);
        let end = line_end(b, start);
        let i = if start + p.column <= end {
            start + p.column
        } else {
            end
        };
        point_at(b, clipped(b, i, bias))
    }
}

pub proof fn lemma_lines_bounds(b: Seq<u8>, i: int)
    requires
        0 <= i <= b.len(),
    ensures
        0 <= newlines(b, i) <= i,
        0 <= line_start(b, i) <= i,
    decreases i,
{
    if i > 0 {
        lemma_lines_bounds(b, i - 1);
    }
}

/// No row comes before an earlier one.
pub proof fn lemma_newlines_grow(b: Seq<u8>, i: int, j: int)
    requires
        0 <= i <= j <= b.len(),
    ensures
        0 <= newlines(b, i) <= newlines(b, j),
    decreases j,
{
    if i < j {
        lemma_newlines_grow(b, i, j - 1);
    } else {
        lemma_lines_bounds(b, i);
    }
}

/// The rows of the text can be counted, the one after the last included.
pub open spec fn few_rows(b: Seq<u8>) -> bool {
    newlines(b, b.len() as int) < u32::MAX
}

/// The point after one more byte.
pub proof fn lemma_next_point(b: Seq<u8>, i: int)
    requires
        0 <= i < b.len(),
    ensures
        point_at(b, i + 1) == if b[i] == NEWLINE {
            (Point { row: counted(point_at(b, i).row + 1), column: 0 })
        } else {
            (Point { row: point_at(b, i).row, column: counted(point_at(b, i).column + 1) })
        },
{
    lemma_lines_bounds(b, i);
    lemma_lines_bounds(b, i + 1);
}

/// Within one line the row does not change and the columns count up; a line
/// feed starts a row.
pub proof fn lemma_points_increase(b: Seq<u8>, i: int, j: int)
    requires
        0 <= i < j <= b.len(),
        b.len() <= u32::MAX,
    ensures
        point_lt(point_at(b, i), point_at(b, j)),
    decreases j,
{
    lemma_lines_bounds(b, i);
    lemma_lines_bounds(b, j - 1);
    lemma_lines_bounds(b, j);
    if i < j - 1 {
        lemma_points_increase(b, i, j - 1);
    }
}

/// Different offsets of a text have different points.
pub proof fn law_points_are_distinct(b: Seq<u8>, i: int, j: int)
    requires
        0 <= i <= b.len(),
        0 <= j <= b.len(),
        b.len() <= u32::MAX,
        point_at(b, i) == point_at(b, j),
    ensures
        i == j,
{
    if i < j {
        lemma_points_increase(b, i, j);
    } else if j < i {
        lemma_points_increase(b, j, i);
    }
}

/// The lines before an offset do not depend on what follows it.
pub proof fn lemma_lines_prefix(a: Seq<u8>, b: Seq<u8>, i: int)
    requires
        0 <= i <= a.len(),
        i <= b.len(),
        a.take(i) == b.take(i),
    ensures
        newlines(a, i) == newlines(b, i),
        line_start(a, i) == line_start(b, i),
    decreases i,
{
    if i > 0 {
        assert(a.take(i)[i - 1] == a[i - 1]);
        assert(b.take(i)[i - 1] == b[i - 1]);
        assert(a.take(i - 1) =~= a.take(i).take(i - 1));
        assert(b.take(i - 1) =~= b.take(i).take(i - 1));
        lemma_lines_prefix(a, b, i - 1);
    }
}

/// The point of an offset is the point of an earlier one plus the point
/// that the text between them ends at.
pub proof fn lemma_point_sum(b: Seq<u8>, i: int, j: int)
    requires
        0 <= i <= j <= b.len(),
    ensures
        newlines(b, j) == newlines(b, i) + newlines(b.subrange(i, j), j - i),
        line_start(b, j) == if newlines(b.subrange(i, j), j - i) == 0 {
            line_start(b, i)
        } else {
            i + line_start(b.subrange(i, j), j - i)
        },
        newlines(b.subrange(i, j), j - i) == 0 ==> line_start(b.subrange(i, j), j - i) == 0,
        point_sum(point_at(b, i), point_at(b.subrange(i, j), j - i)) == point_at(b, j),
    decreases j - i,
{
    let s = b.subrange(i, j);
    lemma_lines_bounds(b, i);
    lemma_lines_bounds(b, j);
    lemma_lines_bounds(s, j - i);
    if i < j {
        let t = b.subrange(i, j - 1);
        lemma_point_sum(b, i, j - 1);
        assert(s.take(j - 1 - i) =~= t.take(j - 1 - i));
        lemma_lines_prefix(s, t, j - 1 - i);
        lemma_lines_bounds(t, j - 1 - i);
        lemma_lines_bounds(b, j - 1);
        assert(s[j - i - 1] == b[j - 1]);
    } else {
        assert(newlines(s, 0) == 0);
    }
}

/// The summary of two texts in a row is the sum of their summaries.
pub proof fn law_summaries_add(a: Seq<u8>, b: Seq<u8>)
    requires
        a.len() + b.len() <= usize::MAX,
    ensures
        summary_of(a + b).bytes == summary_of(a).bytes + summary_of(b).bytes,
        summary_of(a + b).lines == point_sum(summary_of(a).lines, summary_of(b).lines),
{
    let n = a.len() as int;
    let t = a + b;
    lemma_point_sum(t, n, t.len() as int);
    assert(t.subrange(n, t.len() as int) =~= b);
    assert(t.take(n) =~= a.take(n));
    lemma_lines_prefix(t, a, n);
}

/// A character starts after a character of one byte.
pub proof fn lemma_boundary_after_ascii(b: Seq<u8>, i: int)
    requires
        valid_utf8(b),
        0 <= i < b.len(),
        b[i] < 128,
    ensures
        is_char_boundary(b, i + 1),
    decreases b.len(),
{
    let n = length_of_first_scalar(b);
    let rest = pop_first_scalar(b);
    assert(valid_first_scalar(b));
    let x = b[i];
    assert(x < 128 ==> !is_continuation_byte(x)) by (bit_vector);
    if i == 0 {
        assert(x < 128 ==> is_leading_byte_width_1(x)) by (bit_vector);
        is_char_boundary_start_end_of_seq(rest);
    } else {
        assert(i >= n);
        assert(rest[i - n] == b[i]);
        lemma_boundary_after_ascii(rest, i - n);
    }
}

/// A row starts at a character boundary, and so does the end of a line.
pub proof fn lemma_row_boundaries(b: Seq<u8>, row: int, i: int)
    requires
        valid_utf8(b),
        0 <= i <= b.len(),
        is_char_boundary(b, i),
        newlines(b, i) <= row,
        i > 0 ==> newlines(b, i - 1) < row,
    ensures
        i <= row_start_from(b, row, i) <= b.len(),
        is_char_boundary(b, row_start_from(b, row, i)),
        row_start_from(b, row, i) < b.len() ==> newlines(b, row_start_from(b, row, i)) == row,
        newlines(b, row_start_from(b, row, i)) == row && row > 0 && row_start_from(b, row, i) > 0
            ==> b[row_start_from(b, row, i) - 1] == NEWLINE,
    decreases b.len() - i,
{
    lemma_row_start_range(b, row, i);
    let s = row_start_from(b, row, i);
    if s == b.len() {
        is_char_boundary_start_end_of_seq(b);
    }
    if s > i {
        if b[s - 1] == NEWLINE {
            lemma_boundary_after_ascii(b, s - 1);
        }
    }
}

proof fn lemma_row_start_range(b: Seq<u8>, row: int, i: int)
    requires
        0 <= i <= b.len(),
        newlines(b, i) <= row,
    ensures
        i <= row_start_from(b, row, i) <= b.len(),
        newlines(b, row_start_from(b, row, i)) <= row,
        row_start_from(b, row, i) < b.len() ==> newlines(b, row_start_from(b, row, i)) == row,
        row_start_from(b, row, i) > i ==> newlines(b, row_start_from(b, row, i) - 1) < row,
    decreases b.len() - i,
{
    if !(i >= b.len() || newlines(b, i) >= row) {
        lemma_row_start_range(b, row, i + 1);
    }
}

pub proof fn lemma_line_end(b: Seq<u8>, i: int)
    requires
        valid_utf8(b),
        0 <= i <= b.len(),
    ensures
        i <= line_end(b, i) <= b.len(),
        is_char_boundary(b, line_end(b, i)),
        forall|j: int| i <= j < line_end(b, i) ==> b[j] != NEWLINE,
    decreases b.len() - i,
{
    if i >= b.len() {
        is_char_boundary_start_end_of_seq(b);
    } else if b[i] == NEWLINE {
        let x = b[i];
        assert(x == 10 ==> !is_continuation_byte(x)) by (bit_vector);
        is_char_boundary_iff_not_is_continuation_byte(b, i);
    } else {
        lemma_line_end(b, i + 1);
    }
}

pub proof fn lemma_boundaries(b: Seq<u8>, i: int)
    requires
        valid_utf8(b),
        0 <= i <= b.len(),
    ensures
        0 <= boundary_before(b, i) <= i,
        is_char_boundary(b, boundary_before(b, i)),
        i <= boundary_after(b, i) <= b.len(),
        is_char_boundary(b, boundary_after(b, i)),
{
    lemma_boundary_before(b, i);
    lemma_boundary_after(b, i);
}

proof fn lemma_boundary_before(b: Seq<u8>, i: int)
    requires
        valid_utf8(b),
        0 <= i <= b.len(),
    ensures
        0 <= boundary_before(b, i) <= i,
        is_char_boundary(b, boundary_before(b, i)),
    decreases i,
{
    is_char_boundary_start_end_of_seq(b);
    if 0 < i < b.len() && !is_char_boundary(b, i) {
        lemma_boundary_before(b, i - 1);
    }
}

proof fn lemma_boundary_after(b: Seq<u8>, i: int)
    requires
        valid_utf8(b),
        0 <= i <= b.len(),
    ensures
        i <= boundary_after(b, i) <= b.len(),
        is_char_boundary(b, boundary_after(b, i)),
    decreases b.len() - i,
{
    is_char_boundary_start_end_of_seq(b);
    if i < b.len() && !is_char_boundary(b, i) {
        lemma_boundary_after(b, i + 1);
    }
}

/// Whether `byte` continues a character, that is, does not start one.
pub fn continues_char(byte: u8) -> (b: bool)
    ensures
        b == is_continuation_byte(byte),
{
    0x80 <= byte && byte <= 0xbf
}

/// What stands between two character boundaries of a text is a text.
pub proof fn lemma_slice_is_text(b: Seq<u8>, i: int, j: int)
    requires
        is_text(b),
        0 <= i <= j <= b.len(),
        is_char_boundary(b, i),
        is_char_boundary(b, j),
    ensures
        is_text(b.subrange(i, j)),
{
    valid_utf8_split(b, i);
    let tail = b.subrange(i, b.len() as int);
    if j == b.len() {
    } else if i < j {
        is_char_boundary_iff_not_is_continuation_byte(b, j);
        is_char_boundary_iff_not_is_continuation_byte(tail, j - i);
        assert(tail[j - i] == b[j]);
        valid_utf8_split(tail, j - i);
        assert(tail.subrange(0, j - i) =~= b.subrange(i, j));
    } else {
        assert(b.subrange(i, j).len() == 0);
    }
}

/// The bytes as a string, if they are valid UTF-8.
///
/// Stands for `String::from_utf8`, which converts the bytes if they are valid
/// UTF-8, without changing them, and fails otherwise.
#[verifier::external_body]
fn string_from_utf8(bytes: Vec<u8>) -> (result: Option<String>)
    ensures
        match result {
            Some(text) => encode_utf8(text@) == bytes@,
            None => !valid_utf8(bytes@),
        },
{
    String::from_utf8(bytes).ok()
}

/// A copy of the bytes from `start` to `end`.
pub fn copy_range(bytes: &[u8], start: usize, end: usize) -> (copy: Vec<u8>)
    requires
        start <= end <= bytes@.len(),
    ensures
        copy@ == bytes@.subrange(start as int, end as int),
{
    let mut copy: Vec<u8> = Vec::new();
    let mut i: usize = start;
    while i < end
        invariant
            start <= i <= end <= bytes@.len(),
            copy@ == bytes@.subrange(start as int, i as int),
        decreases end - i,
    {
        copy.push(bytes[i]);
        proof {
            assert(bytes@.subrange(start as int, i + 1) =~= bytes@.subrange(
                start as int,
                i as int,
            ).push(bytes@[i as int]));
        }
        i = i + 1;
    }
    copy
}

/// The text that the bytes from `start` to `end` hold.
pub fn string_of(bytes: &[u8], start: usize, end: usize) -> (text: String)
    requires
        start <= end <= bytes@.len(),
        valid_utf8(bytes@.subrange(start as int, end as int)),
    ensures
        encode_utf8(text@) == bytes@.subrange(start as int, end as int),
{
    match string_from_utf8(copy_range(bytes, start, end)) {
        Some(text) => text,
        None => String::new(),
    }
}

/// A text.
#[derive(Debug)]
pub struct Rope {
    bytes: Vec<u8>,
}

impl View for Rope {
    type V = Seq<u8>;

    closed spec fn view(&self) -> Seq<u8> {
        self.bytes@
    }
}

impl Clone for Rope {
    fn clone(&self) -> (copy: Self)
        ensures
            copy@ == self@,
    {
        let bytes = self.bytes.clone();
        assert(bytes@ =~= self.bytes@);
        Rope { bytes }
    }
}

impl Rope {
    /// The bytes are a text.
    pub open spec fn wf(&self) -> bool {
        is_text(self@)
    }

    /// The empty text.
    pub fn new() -> (rope: Rope)
        ensures
            rope.wf(),
            rope@ == Seq::<u8>::empty(),
    {
        Rope { bytes: Vec::new() }
    }

    /// The text of a string.
    pub fn from_text(text: &str) -> (rope: Rope)
        requires
            encode_utf8(text@).len() <= usize::MAX,
        ensures
            rope.wf(),
            rope@ == encode_utf8(text@),
    {
        let mut rope = Rope::new();
        rope.push(text);
        assert(rope@ =~= encode_utf8(text@));
        rope
    }

    pub fn len(&self) -> (len: usize)
        ensures
            len == self@.len(),
    {
        self.bytes.len()
    }

    /// The bytes of the text.
    pub fn as_bytes(&self) -> (bytes: &[u8])
        ensures
            bytes@ == self@,
    {
        self.bytes.as_slice()
    }

    /// Adds the text of a string at the end.
    pub fn push(&mut self, text: &str)
        requires
            old(self).wf(),
            old(self)@.len() + encode_utf8(text@).len() <= usize::MAX,
        ensures
            final(self).wf(),
            final(self)@ == old(self)@ + encode_utf8(text@),
    {
        let bytes = text.as_bytes();
        let mut i: usize = 0;
        assert(self@ =~= old(self)@ + bytes@.take(0));
        while i < bytes.len()
            invariant
                i <= bytes@.len(),
                self@ == old(self)@ + bytes@.take(i as int),
            decreases bytes@.len() - i,
        {
            self.bytes.push(bytes[i]);
            assert(self@ =~= old(self)@ + bytes@.take(i + 1));
            i = i + 1;
        }
        proof {
            assert(bytes@.take(bytes@.len() as int) =~= bytes@);
            encode_utf8_valid_utf8(text@);
            valid_utf8_concat(old(self)@, bytes@);
        }
    }

    /// Adds another text at the end.
    pub fn append(&mut self, other: Rope)
        requires
            old(self).wf(),
            other.wf(),
            old(self)@.len() + other@.len() <= usize::MAX,
        ensures
            final(self).wf(),
            final(self)@ == old(self)@ + other@,
    {
        let mut other = other;
        proof {
            valid_utf8_concat(self@, other@);
        }
        self.bytes.append(&mut other.bytes);
    }

    /// The part of the text between two character boundaries.
    pub fn slice(&self, start: usize, end: usize) -> (part: Rope)
        requires
            self.wf(),
            start <= end <= self@.len(),
            is_char_boundary(self@, start as int),
            is_char_boundary(self@, end as int),
        ensures
            part.wf(),
            part@ == self@.subrange(start as int, end as int),
    {
        proof {
            lemma_slice_is_text(self@, start as int, end as int);
        }
        Rope { bytes: copy_range(self.bytes.as_slice(), start, end) }
    }

    /// The text between two character boundaries, as a string.
    pub fn text_in(&self, start: usize, end: usize) -> (text: String)
        requires
            self.wf(),
            start <= end <= self@.len(),
            is_char_boundary(self@, start as int),
            is_char_boundary(self@, end as int),
        ensures
            encode_utf8(text@) == self@.subrange(start as int, end as int),
    {
        proof {
            lemma_slice_is_text(self@, start as int, end as int);
        }
        string_of(self.bytes.as_slice(), start, end)
    }

    /// The number of bytes, and the point where the text ends.
    pub fn summary(&self) -> (summary: TextSummary)
        ensures
            summary == summary_of(self@),
    {
        TextSummary { bytes: self.len(), lines: self.max_point() }
    }

    /// The point where the text ends.
    pub fn max_point(&self) -> (point: Point)
        ensures
            point == point_at(self@, self@.len() as int),
    {
        self.to_point(self.len())
    }

    /// The point of an offset.
    pub fn to_point(&self, offset: usize) -> (point: Point)
        requires
            offset <= self@.len(),
        ensures
            point == point_at(self@, offset as int),
    {
        let mut i: usize = 0;
        let mut point = Point::zero();
        while i < offset
            invariant
                i <= offset <= self@.len(),
                point == point_at(self@, i as int),
            decreases offset - i,
        {
            proof {
                lemma_next_point(self@, i as int);
            }
            point = point.next(self.bytes[i] == NEWLINE);
            i = i + 1;
        }
        point
    }

    /// How many lines, and how many bytes of the last one, lie between two
    /// offsets.
    pub fn lines_between(&self, start: usize, end: usize) -> (lines: Point)
        requires
            start <= end <= self@.len(),
        ensures
            lines == point_at(self@.subrange(start as int, end as int), end - start),
    {
        let ghost part = self@.subrange(start as int, end as int);
        let mut i: usize = start;
        let mut lines = Point::zero();
        while i < end
            invariant
                start <= i <= end <= self@.len(),
                part == self@.subrange(start as int, end as int),
                lines == point_at(part, i - start),
            decreases end - i,
        {
            proof {
                lemma_next_point(part, i - start);
                assert(part[i - start] == self@[i as int]);
            }
            lines = lines.next(self.bytes[i] == NEWLINE);
            i = i + 1;
        }
        lines
    }

    /// The offset of a point of the text; the first one, should there be several.
    pub fn to_offset(&self, point: Point) -> (offset: usize)
        requires
            has_point(self@, point),
        ensures
            offset <= self@.len(),
            offset == offset_of_point(self@, point),
            point_at(self@, offset as int) == point,
    {
        let ghost target = choose|k: int|
            0 <= k <= self@.len() && #[trigger] point_at(self@, k) == point;
        let len = self.bytes.len();
        let mut i: usize = 0;
        let mut here = Point::zero();
        while here != point
            invariant
                i <= target <= self@.len(),
                len == self@.len(),
                point_at(self@, target) == point,
                here == point_at(self@, i as int),
                offset_of_point(self@, point) == point_from(self@, point, i as int),
            decreases target - i,
        {
            proof {
                lemma_next_point(self@, i as int);
            }
            here = here.next(self.bytes[i] == NEWLINE);
            i = i + 1;
        }
        i
    }

    /// The offset, moved to a character boundary.
    pub fn clip_offset(&self, offset: usize, bias: Bias) -> (clip: usize)
        requires
            self.wf(),
        ensures
            clip == clipped(self@, offset as int, bias),
            clip <= self@.len(),
            is_char_boundary(self@, clip as int),
    {
        proof {
            is_char_boundary_start_end_of_seq(self@);
        }
        if offset >= self.bytes.len() {
            return self.bytes.len();
        }
        let mut i: usize = offset;
        proof {
            lemma_boundaries(self@, i as int);
        }
        while i < self.bytes.len() && continues_char(self.bytes[i])
            invariant
                self.wf(),
                i <= self@.len(),
                bias == Bias::Left ==> i < self@.len(),
                clipped(self@, i as int, bias) == clipped(self@, offset as int, bias),
            decreases
                    if bias == Bias::Left {
                        i as int
                    } else {
                        self@.len() - i
                    },
        {
            proof {
                is_char_boundary_start_end_of_seq(self@);
                is_char_boundary_iff_not_is_continuation_byte(self@, i as int);
            }
            match bias {
                Bias::Left => {
                    i = i - 1;
                },
                Bias::Right => {
                    i = i + 1;
                },
            }
        }
        proof {
            if i < self@.len() {
                is_char_boundary_iff_not_is_continuation_byte(self@, i as int);
            }
        }
        i
    }

    /// The point, moved into the text and to a character boundary.
    pub fn clip_point(&self, point: Point, bias: Bias) -> (clip: Point)
        requires
            self.wf(),
        ensures
            clip == clipped_point(self@, point, bias),
            has_point(self@, clip),
    {
        proof {
            lemma_lines_bounds(self@, self@.len() as int);
        }
        let end = self.max_point();
        if point.row > end.row {
            return end;
        }
        let start = self.row_start(point.row);
        let line_end = self.line_end_from(start);
        let i: usize = if line_end - start <= point.column as usize {
            line_end
        } else {
            start + point.column as usize
        };
        let clip = self.clip_offset(i, bias);
        self.to_point(clip)
    }

    /// Where row `row` starts; the end of the text if there is no such row.
    pub fn row_start(&self, row: u32) -> (offset: usize)
        ensures
            offset == row_start_from(self@, row as int, 0),
            offset <= self@.len(),
    {
        let mut i: usize = 0;
        let mut rows: u32 = 0;
        while i < self.bytes.len() && rows < row
            invariant
                i <= self@.len(),
                rows == newlines(self@, i as int),
                row_start_from(self@, row as int, i as int) == row_start_from(
                    self@,
                    row as int,
                    0,
                ),
            decreases self@.len() - i,
        {
            proof {
                lemma_lines_bounds(self@, i + 1);
            }
            if self.bytes[i] == NEWLINE {
                rows = rows + 1;
            }
            i = i + 1;
        }
        i
    }

    /// The first line feed at or after `start`; the end if there is none.
    pub fn line_end_from(&self, start: usize) -> (offset: usize)
        requires
            start <= self@.len(),
        ensures
            offset == line_end(self@, start as int),
            start <= offset <= self@.len(),
    {
        let mut i: usize = start;
        while i < self.bytes.len() && self.bytes[i] != NEWLINE
            invariant
                start <= i <= self@.len(),
                line_end(self@, i as int) == line_end(self@, start as int),
            decreases self@.len() - i,
        {
            i = i + 1;
        }
        i
    }

    /// A cursor that starts at a character boundary.
    pub fn cursor(&self, offset: usize) -> (cursor: Cursor<'_>)
        requires
            self.wf(),
            offset <= self@.len(),
            is_char_boundary(self@, offset as int),
        ensures
            cursor.wf(),
            cursor.text() == self@,
            cursor.at() == offset,
    {
        Cursor { rope: self, offset }
    }
}

/// A place in a text that moves forward.
pub struct Cursor<'a> {
    rope: &'a Rope,
    offset: usize,
}

impl<'a> Cursor<'a> {
    /// The text that the cursor moves over.
    pub closed spec fn text(&self) -> Seq<u8> {
        self.rope@
    }

    /// Where the cursor stands.
    pub closed spec fn at(&self) -> int {
        self.offset as int
    }

    /// The cursor stands at a character boundary of a text.
    pub open spec fn wf(&self) -> bool {
        &&& is_text(self.text())
        &&& 0 <= self.at() <= self.text().len()
        &&& is_char_boundary(self.text(), self.at())
    }

    pub fn offset(&self) -> (offset: usize)
        ensures
            offset == self.at(),
    {
        self.offset
    }

    /// Moves to `end`, and returns the text passed.
    pub fn slice(&mut self, end: usize) -> (part: Rope)
        requires
            old(self).wf(),
            old(self).at() <= end <= old(self).text().len(),
            is_char_boundary(old(self).text(), end as int),
        ensures
            final(self).wf(),
            final(self).text() == old(self).text(),
            final(self).at() == end,
            part.wf(),
            part@ == old(self).text().subrange(old(self).at(), end as int),
    {
        let part = self.rope.slice(self.offset, end);
        self.offset = end;
        part
    }

    /// Moves to `end`, and returns the summary of the text passed.
    pub fn summary(&mut self, end: usize) -> (summary: TextSummary)
        requires
            old(self).wf(),
            old(self).at() <= end <= old(self).text().len(),
            is_char_boundary(old(self).text(), end as int),
        ensures
            final(self).wf(),
            final(self).text() == old(self).text(),
            final(self).at() == end,
            summary == summary_of(old(self).text().subrange(old(self).at(), end as int)),
    {
        self.slice(end).summary()
    }

    /// Moves to the end, and returns the text passed.
    pub fn suffix(&mut self) -> (part: Rope)
        requires
            old(self).wf(),
        ensures
            final(self).wf(),
            final(self).text() == old(self).text(),
            final(self).at() == old(self).text().len(),
            part.wf(),
            part@ == old(self).text().subrange(old(self).at(), old(self).text().len() as int),
    {
        proof {
            is_char_boundary_start_end_of_seq(self.text());
        }
        let end = self.rope.len();
        self.slice(end)
    }
}

impl TextSummary {
    /// The summary of no text.
    pub fn zero() -> (summary: TextSummary)
        ensures
            summary == summary_of(Seq::<u8>::empty()),
    {
        TextSummary { bytes: 0, lines: Point::zero() }
    }

    /// The summary of this text with another one after it.
    pub fn plus(self, other: TextSummary) -> (sum: TextSummary)
        requires
            self.bytes + other.bytes <= usize::MAX,
        ensures
            sum.bytes == self.bytes + other.bytes,
            sum.lines == point_sum(self.lines, other.lines),
    {
        TextSummary { bytes: self.bytes + other.bytes, lines: self.lines.plus(other.lines) }
    }
}

} // verus!
