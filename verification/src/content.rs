//! The text of a buffer or a snapshot, and the places in it.

use std::ops::Range;
use vstd::prelude::*;
use vstd::utf8::*;

use crate::anchor_laws::law_anchor_round_trip;
use crate::builder::{FragmentCursor, doc_of};
use crate::clock::{Global, Version, observes};
use crate::document::{
    Cell, Doc, all_seen, law_stored_texts, lemma_cell, lemma_cells_len, lemma_len_before_grows,
    lemma_seen_rank, lemma_text, lemma_visible_rank, seen_rank, visible_rank, visible_text,
};
use crate::edit_laws::lemma_visible_part;
use crate::error::Error;
use crate::fragment::{Fragment, local_of};
use crate::history::{plus, saturating_plus};
use crate::local::lemma_is_visible_at;
use crate::operation::{Anchor, AnchorModel};
use crate::point::{Point, counted};
use crate::rope::{
    Bias, Rope, TextSummary, has_point, line_end, offset_of_point, point_at, row_start_from,
    summary_of,
};
use crate::weave::{lemma_seen_rank_grows, lemma_visible_rank_grows, seek, seek_from, visible_at};

verus! {

/// The byte of a space.
pub const SPACE: u8 = 32;

/// The place of the first cell from `p` on that `v` had seen and that has
/// `offset` such cells before it; the end if there is none.
pub open spec fn seen_at_from(cells: Seq<Cell>, v: Version, offset: int, p: int) -> int
    decreases cells.len() - p,
{
    if p >= cells.len() || (0 <= p && observes(v, local_of(cells[p].timestamp)) && seen_rank(
        cells,
        v,
        p,
    ) >= offset) {
        p
    } else {
        seen_at_from(cells, v, offset, p + 1)
    }
}

/// The place of the cell that `v` had seen after `offset` others; the end if
/// there is none.
pub open spec fn seen_at(cells: Seq<Cell>, v: Version, offset: int) -> int {
    seen_at_from(cells, v, offset, 0)
}

/// The first place from `p` on that has `offset` visible cells before it; the
/// end if there is none.
pub open spec fn visible_seek_from(cells: Seq<Cell>, offset: int, p: int) -> int
    decreases cells.len() - p,
{
    if p >= cells.len() || visible_rank(cells, p) >= offset {
        p
    } else {
        visible_seek_from(cells, offset, p + 1)
    }
}

/// The place of an offset of the visible text: next to the visible cell before
/// it (left) or after it (right). An offset past the end keeps its distance
/// from it.
pub open spec fn place_of(cells: Seq<Cell>, offset: int, bias: Bias) -> int {
    let total = visible_rank(cells, cells.len() as int);
    if offset > total {
        plus(offset, cells.len() - total)
    } else {
        match bias {
            Bias::Left => visible_seek_from(cells, offset, 0),
            Bias::Right => visible_at(cells, offset),
        }
    }
}

/// The place of an anchor: next to the cell before it (left) or after it
/// (right) of those that its version had seen.
pub open spec fn anchor_place(cells: Seq<Cell>, anchor: AnchorModel) -> int {
    match anchor.bias {
        Bias::Left => seek(cells, anchor.version, anchor.offset),
        Bias::Right => seen_at(cells, anchor.version, anchor.offset),
    }
}

/// The offset of an anchor in the visible text.
pub open spec fn anchor_offset(cells: Seq<Cell>, anchor: AnchorModel) -> int {
    visible_rank(cells, anchor_place(cells, anchor))
}

/// The anchor for an offset of the visible text at version `v`.
pub open spec fn anchor_for(cells: Seq<Cell>, v: Version, offset: int, bias: Bias) -> AnchorModel {
    AnchorModel { offset: place_of(cells, offset, bias), bias, version: v }
}

pub proof fn lemma_seek_is(cells: Seq<Cell>, v: Version, offset: int, p: int, r: int)
    requires
        0 <= p <= r <= cells.len(),
        r < cells.len() ==> seen_rank(cells, v, r) >= offset,
        p < r ==> seen_rank(cells, v, r - 1) < offset,
    ensures
        seek_from(cells, v, offset, p) == r,
    decreases r - p,
{
    if p < r {
        lemma_seen_rank_grows(cells, v, p, r - 1);
        lemma_seek_is(cells, v, offset, p + 1, r);
    }
}

pub proof fn lemma_seen_at_is(cells: Seq<Cell>, v: Version, offset: int, p: int, r: int)
    requires
        0 <= p <= r <= cells.len(),
        r < cells.len() ==> observes(v, local_of(cells[r].timestamp)) && seen_rank(cells, v, r)
            >= offset,
        p < r ==> seen_rank(cells, v, r) <= offset,
    ensures
        seen_at_from(cells, v, offset, p) == r,
    decreases r - p,
{
    if p < r {
        lemma_seen_rank_grows(cells, v, p + 1, r);
        lemma_seen_at_is(cells, v, offset, p + 1, r);
    }
}

proof fn lemma_visible_seek_is(cells: Seq<Cell>, offset: int, p: int, r: int)
    requires
        0 <= p <= r <= cells.len(),
        r < cells.len() ==> visible_rank(cells, r) >= offset,
        p < r ==> visible_rank(cells, r - 1) < offset,
    ensures
        visible_seek_from(cells, offset, p) == r,
    decreases r - p,
{
    if p < r {
        lemma_visible_rank_grows(cells, p, r - 1);
        lemma_visible_seek_is(cells, offset, p + 1, r);
    }
}

/// An anchor lies in the text.
pub proof fn lemma_anchor_offset(cells: Seq<Cell>, anchor: AnchorModel)
    ensures
        0 <= anchor_place(cells, anchor) <= cells.len(),
        0 <= anchor_offset(cells, anchor) <= visible_rank(cells, cells.len() as int),
{
    lemma_seek_bounds(cells, anchor.version, anchor.offset, 0);
    lemma_visible_rank_grows(cells, 0, anchor_place(cells, anchor));
    lemma_visible_rank_grows(cells, anchor_place(cells, anchor), cells.len() as int);
}

proof fn lemma_seek_bounds(cells: Seq<Cell>, v: Version, offset: int, p: int)
    requires
        0 <= p <= cells.len(),
    ensures
        p <= seek_from(cells, v, offset, p) <= cells.len(),
        p <= seen_at_from(cells, v, offset, p) <= cells.len(),
    decreases cells.len() - p,
{
    if p < cells.len() {
        lemma_seek_bounds(cells, v, offset, p + 1);
    }
}

/// How many spaces stand at offset `i` in a row.
pub open spec fn spaces_at(b: Seq<u8>, i: int) -> int
    decreases b.len() - i,
{
    if 0 <= i < b.len() && b[i] == SPACE {
        1 + spaces_at(b, i + 1)
    } else {
        0
    }
}

proof fn lemma_spaces(b: Seq<u8>, i: int)
    ensures
        spaces_at(b, i) >= 0,
    decreases b.len() - i,
{
    if 0 <= i < b.len() && b[i] == SPACE {
        lemma_spaces(b, i + 1);
    }
}

/// Where a row starts; the end of the text if there is no such row.
pub open spec fn row_start_of(b: Seq<u8>, row: int) -> int {
    row_start_from(b, row, 0)
}

/// The length of a row, without its line feed, as far as the type holds it.
pub open spec fn line_len_of(b: Seq<u8>, row: int) -> int {
    (line_end(b, row_start_of(b, row)) - row_start_of(b, row)) % 0x1_0000_0000
}

/// How far a row is indented with spaces; the largest number if there are more.
pub open spec fn indent_of(b: Seq<u8>, row: int) -> int {
    counted(spaces_at(b, row_start_of(b, row))) as int
}

/// A text, and the fragments it is made of.
pub struct Content<'a> {
    pub visible_text: &'a Rope,
    pub fragments: &'a Vec<Fragment>,
    pub version: &'a Global,
    /// The text that is not visible.
    pub deleted_text: Ghost<Seq<u8>>,
}

/// Something that names a place in a text.
pub trait ToOffset {
    /// It names a place of this text.
    spec fn names_place(&self, cells: Seq<Cell>) -> bool;

    /// The offset of the place.
    spec fn offset_in(&self, cells: Seq<Cell>) -> int;

    fn to_offset(&self, content: &Content) -> (offset: usize)
        requires
            content.wf(),
            self.names_place(content.cells()),
        ensures
            offset == self.offset_in(content.cells()),
    ;
}

/// Something that names a point in a text.
pub trait ToPoint {
    /// It names a point of this text.
    spec fn names_point(&self, cells: Seq<Cell>) -> bool;

    /// The point.
    spec fn point_in(&self, cells: Seq<Cell>) -> Point;

    fn to_point(&self, content: &Content) -> (point: Point)
        requires
            content.wf(),
            self.names_point(content.cells()),
        ensures
            point == self.point_in(content.cells()),
    ;
}

impl ToOffset for Point {
    open spec fn names_place(&self, cells: Seq<Cell>) -> bool {
        has_point(visible_text(cells), *self)
    }

    open spec fn offset_in(&self, cells: Seq<Cell>) -> int {
        offset_of_point(visible_text(cells), *self)
    }

    fn to_offset(&self, content: &Content) -> (offset: usize) {
        proof {
            law_stored_texts(content.doc());
        }
        content.visible_text.to_offset(*self)
    }
}

impl ToOffset for usize {
    open spec fn names_place(&self, cells: Seq<Cell>) -> bool {
        true
    }

    open spec fn offset_in(&self, cells: Seq<Cell>) -> int {
        *self as int
    }

    fn to_offset(&self, content: &Content) -> (offset: usize) {
        *self
    }
}

impl ToOffset for Anchor {
    open spec fn names_place(&self, cells: Seq<Cell>) -> bool {
        true
    }

    open spec fn offset_in(&self, cells: Seq<Cell>) -> int {
        anchor_offset(cells, self@)
    }

    fn to_offset(&self, content: &Content) -> (offset: usize) {
        content.summary_for_anchor(self).bytes
    }
}

impl<'b> ToOffset for &'b Anchor {
    open spec fn names_place(&self, cells: Seq<Cell>) -> bool {
        true
    }

    open spec fn offset_in(&self, cells: Seq<Cell>) -> int {
        anchor_offset(cells, self@)
    }

    fn to_offset(&self, content: &Content) -> (offset: usize) {
        content.summary_for_anchor(self).bytes
    }
}

impl ToPoint for Anchor {
    open spec fn names_point(&self, cells: Seq<Cell>) -> bool {
        true
    }

    open spec fn point_in(&self, cells: Seq<Cell>) -> Point {
        point_at(visible_text(cells), anchor_offset(cells, self@))
    }

    fn to_point(&self, content: &Content) -> (point: Point) {
        proof {
            law_stored_texts(content.doc());
        }
        content.point_for_anchor(self)
    }
}

impl ToPoint for usize {
    open spec fn names_point(&self, cells: Seq<Cell>) -> bool {
        *self <= visible_text(cells).len()
    }

    open spec fn point_in(&self, cells: Seq<Cell>) -> Point {
        point_at(visible_text(cells), *self as int)
    }

    fn to_point(&self, content: &Content) -> (point: Point) {
        proof {
            law_stored_texts(content.doc());
        }
        content.visible_text.to_point(*self)
    }
}

impl<'a> Content<'a> {
    pub open spec fn doc(&self) -> Doc {
        doc_of(self.fragments@, self.visible_text@, self.deleted_text@)
    }

    pub open spec fn cells(&self) -> Seq<Cell> {
        self.doc().cells()
    }

    /// The text is in order, and the version has seen all of it.
    pub open spec fn wf(&self) -> bool {
        self.doc().wf() && all_seen(self.cells(), self.version@)
    }

    /// The point where the text ends.
    pub fn max_point(&self) -> (point: Point)
        requires
            self.wf(),
        ensures
            point == point_at(self.visible_text@, self.visible_text@.len() as int),
    {
        self.visible_text.max_point()
    }

    /// The length of the text: that of the visible fragments.
    pub fn len(&self) -> (len: usize)
        requires
            self.wf(),
        ensures
            len == self.visible_text@.len(),
    {
        crate::builder::text_summary(self.fragments).visible
    }

    /// The characters from a position on.
    pub fn chars_at<T: ToOffset>(&self, position: T) -> (chars: Vec<char>)
        requires
            self.wf(),
            position.names_place(self.cells()),
            position.offset_in(self.cells()) <= self.visible_text@.len(),
            is_char_boundary(self.visible_text@, position.offset_in(self.cells())),
        ensures
            encode_utf8(chars@) == self.visible_text@.skip(position.offset_in(self.cells())),
    {
        let offset = position.to_offset(self);
        let end = self.visible_text.len();
        proof {
            is_char_boundary_start_end_of_seq(self.visible_text@);
            assert(self.visible_text@.subrange(offset as int, end as int)
                =~= self.visible_text@.skip(offset as int));
        }
        let text = self.visible_text.text_in(offset, end);
        chars_of_str(text.as_str())
    }

    /// The text of a range.
    pub fn text_for_range<T: ToOffset>(&self, range: Range<T>) -> (text: String)
        requires
            self.wf(),
            range.start.names_place(self.cells()),
            range.end.names_place(self.cells()),
            range.start.offset_in(self.cells()) <= range.end.offset_in(self.cells()) <= self.visible_text@.len(),
            is_char_boundary(self.visible_text@, range.start.offset_in(self.cells())),
            is_char_boundary(self.visible_text@, range.end.offset_in(self.cells())),
        ensures
            encode_utf8(text@) == self.visible_text@.subrange(
                range.start.offset_in(self.cells()),
                range.end.offset_in(self.cells()),
            ),
    {
        let start = range.start.to_offset(self);
        let end = range.end.to_offset(self);
        self.visible_text.text_in(start, end)
    }

    /// The length of a row, without its line feed.
    pub fn line_len(&self, row: u32) -> (len: u32)
        requires
            self.wf(),
        ensures
            len == line_len_of(self.visible_text@, row as int),
    {
        let start = self.visible_text.row_start(row);
        let end = self.visible_text.line_end_from(start);
        ((end - start) as u64 % 0x1_0000_0000u64) as u32
    }

    /// How far a row is indented with spaces.
    pub fn indent_column_for_line(&self, row: u32) -> (column: u32)
        requires
            self.wf(),
        ensures
            column == indent_of(self.visible_text@, row as int),
    {
        let bytes = self.visible_text.as_bytes();
        let start = self.visible_text.row_start(row);
        let mut i: usize = start;
        let mut column: u32 = 0;
        while i < bytes.len() && bytes[i] == SPACE && column < u32::MAX
            invariant
                start <= i <= bytes@.len(),
                bytes@ == self.visible_text@,
                column == i - start,
                spaces_at(bytes@, start as int) == column + spaces_at(bytes@, i as int),
            decreases bytes@.len() - i,
        {
            i = i + 1;
            column = column + 1;
        }
        proof {
            lemma_spaces(bytes@, i as int);
        }
        column
    }

    /// Moves to the place of an anchor: how many visible bytes come before it,
    /// and how many bytes in all.
    fn locate(&self, anchor_offset: usize, bias: Bias, version: &Global) -> (found: (usize, usize))
        requires
            self.wf(),
        ensures
            ({
                let anchor = AnchorModel {
                    offset: anchor_offset as int,
                    bias,
                    version: version@,
                };
                &&& found.1 == anchor_place(self.cells(), anchor)
                &&& found.0 == visible_rank(self.cells(), found.1 as int)
                &&& found.0 <= self.visible_text@.len()
                &&& found.1 <= self.cells().len()
            }),
    {
        let ghost d = self.doc();
        let ghost cells = self.cells();
        let ghost v = version@;
        let ghost target = anchor_offset as int;
        let mut cursor = FragmentCursor::new(self.fragments, version);
        cursor.seek_offset(anchor_offset, bias);
        let ghost i = cursor.index as int;
        let ghost from = d.len_before(i);
        proof {
            lemma_cells_len(d, d.n());
            lemma_len_before_grows(d, 0, i);
            lemma_len_before_grows(d, i, d.n());
            lemma_seen_rank(d, v, i, 0);
            lemma_visible_rank(d, i, 0);
            law_stored_texts(d);
            lemma_visible_part(cells, 0, cells.len() as int);
        }
        match cursor.item() {
            Some(fragment) => {
                let observed = fragment.is_observed(version);
                let ghost len = d.pieces[i].len as int;
                proof {
                    assert(d.fragment_ok(i));
                    lemma_text(d, i);
                    lemma_len_before_grows(d, i + 1, d.n());
                    lemma_seen_rank(d, v, i, len);
                }
                let overshoot = if observed && anchor_offset > cursor.offset {
                    anchor_offset - cursor.offset
                } else {
                    0
                };
                proof {
                    let p = from + overshoot;
                    lemma_seen_rank(d, v, i, overshoot as int);
                    lemma_visible_rank(d, i, overshoot as int);
                    lemma_visible_part(cells, 0, p);
                    match bias {
                        Bias::Left => {
                            if overshoot > 0 {
                                lemma_seen_rank(d, v, i, overshoot - 1);
                            } else if i > 0 {
                                assert(seen_rank(cells, v, p) < target);
                            }
                            lemma_seek_is(cells, v, target, 0, p);
                        },
                        Bias::Right => {
                            lemma_cell(d, i, overshoot as int);
                            lemma_seen_at_is(cells, v, target, 0, p);
                        },
                    }
                }
                if fragment.visible {
                    (
                        cursor.start.visible + overshoot,
                        cursor.start.visible + cursor.start.deleted + overshoot,
                    )
                } else {
                    (
                        cursor.start.visible,
                        cursor.start.visible + cursor.start.deleted + overshoot,
                    )
                }
            },
            None => {
                proof {
                    match bias {
                        Bias::Left => {
                            if cells.len() > 0 {
                                lemma_seen_rank_grows(cells, v, cells.len() - 1, cells.len() as int);
                            }
                            lemma_seek_is(cells, v, target, 0, cells.len() as int);
                        },
                        Bias::Right => {
                            lemma_seen_at_is(cells, v, target, 0, cells.len() as int);
                        },
                    }
                }
                (cursor.start.visible, cursor.start.visible + cursor.start.deleted)
            },
        }
    }

    /// The text before an anchor, summed up.
    pub fn summary_for_anchor(&self, anchor: &Anchor) -> (summary: TextSummary)
        requires
            self.wf(),
        ensures
            summary.bytes == anchor_offset(self.cells(), anchor@),
            summary.lines == point_at(
                self.visible_text@,
                anchor_offset(self.cells(), anchor@),
            ),
            summary.bytes <= self.visible_text@.len(),
    {
        let (offset, _) = self.locate(anchor.offset, anchor.bias, &anchor.version);
        TextSummary { bytes: offset, lines: self.visible_text.to_point(offset) }
    }

    /// The point of an anchor.
    pub fn point_for_anchor(&self, anchor: &Anchor) -> (point: Point)
        requires
            self.wf(),
        ensures
            point == point_at(self.visible_text@, anchor_offset(self.cells(), anchor@)),
    {
        self.summary_for_anchor(anchor).lines
    }

    /// The text of a range, summed up.
    pub fn text_summary_for_range(&self, range: Range<usize>) -> (summary: TextSummary)
        requires
            self.wf(),
            range.start <= range.end <= self.visible_text@.len(),
            is_char_boundary(self.visible_text@, range.start as int),
            is_char_boundary(self.visible_text@, range.end as int),
        ensures
            summary == summary_of(
                self.visible_text@.subrange(range.start as int, range.end as int),
            ),
    {
        let mut cursor = self.visible_text.cursor(range.start);
        cursor.summary(range.end)
    }

    /// The place of an offset, counted in all the text there is.
    fn place(&self, offset: usize, bias: Bias) -> (place: usize)
        requires
            self.wf(),
        ensures
            place == place_of(self.cells(), offset as int, bias),
    {
        let ghost d = self.doc();
        let ghost cells = self.cells();
        let ghost target = offset as int;
        let mut cursor = FragmentCursor::new(self.fragments, self.version);
        cursor.seek_visible(offset, bias);
        let ghost i = cursor.index as int;
        let ghost from = d.len_before(i);
        proof {
            lemma_cells_len(d, d.n());
            lemma_len_before_grows(d, 0, i);
            lemma_len_before_grows(d, i, d.n());
            lemma_visible_rank(d, i, 0);
            law_stored_texts(d);
            lemma_visible_part(cells, 0, cells.len() as int);
            if i < d.n() {
                assert(d.fragment_ok(i));
                lemma_text(d, i);
                lemma_len_before_grows(d, i + 1, d.n());
                lemma_visible_rank(d, i, d.pieces[i].len as int);
                let over = target - cursor.start.visible;
                match bias {
                    Bias::Left => {
                        if d.pieces[i].visible && over > 0 {
                            lemma_visible_rank(d, i, over);
                            lemma_visible_rank(d, i, over - 1);
                        }
                        lemma_visible_seek_is(cells, target, 0, from + over);
                    },
                    Bias::Right => {
                        lemma_visible_rank(d, i, over);
                        lemma_cell(d, i, over);
                        lemma_is_visible_at(cells, from + over);
                    },
                }
            } else if target <= self.visible_text@.len() {
                match bias {
                    Bias::Left => {
                        if cells.len() > 0 {
                            lemma_visible_rank_grows(cells, cells.len() - 1, cells.len() as int);
                        }
                        lemma_visible_seek_is(cells, target, 0, cells.len() as int);
                    },
                    Bias::Right => {
                        lemma_is_visible_at(cells, cells.len() as int);
                    },
                }
            }
        }
        saturating_plus(offset, cursor.start.deleted)
    }

    /// An anchor for a position, which stays on the given side of it.
    pub fn anchor_at<T: ToOffset>(&self, position: T, bias: Bias) -> (anchor: Anchor)
        requires
            self.wf(),
            position.names_place(self.cells()),
            position.offset_in(self.cells()) <= self.visible_text@.len(),
        ensures
            anchor@ == anchor_for(
                self.cells(),
                self.version@,
                position.offset_in(self.cells()),
                bias,
            ),
            anchor_offset(self.cells(), anchor@) == position.offset_in(self.cells()),
    {
        let offset = position.to_offset(self);
        proof {
            law_stored_texts(self.doc());
            lemma_visible_part(self.cells(), 0, self.cells().len() as int);
            law_anchor_round_trip(self.cells(), self.version@, offset as int, bias);
        }
        Anchor { offset: self.place(offset, bias), bias, version: self.version.clone() }
    }

    /// Where an anchor lies in all the text there is.
    pub fn full_offset_for_anchor(&self, anchor: &Anchor) -> (offset: usize)
        requires
            self.wf(),
        ensures
            offset == anchor_place(self.cells(), anchor@),
    {
        let (_, offset) = self.locate(anchor.offset, anchor.bias, &anchor.version);
        offset
    }

    /// The point of an offset; an error past the end.
    pub fn point_for_offset(&self, offset: usize) -> (point: Result<Point, Error>)
        requires
            self.wf(),
        ensures
            match point {
                Ok(point) => offset <= self.visible_text@.len() && point == point_at(
                    self.visible_text@,
                    offset as int,
                ),
                Err(error) => offset > self.visible_text@.len() && error
                    == Error::OffsetOutOfBounds,
            },
    {
        if offset <= self.len() {
            Ok(self.visible_text.to_point(offset))
        } else {
            Err(Error::OffsetOutOfBounds)
        }
    }
}

/// The characters of a string.
pub fn chars_of_str(text: &str) -> (chars: Vec<char>)
    ensures
        chars@ == text@,
{
    let mut chars: Vec<char> = Vec::new();
    let len = text.unicode_len();
    let mut i: usize = 0;
    while i < len
        invariant
            i <= len,
            len == text@.len(),
            chars@ =~= text@.take(i as int),
        decreases len - i,
    {
        chars.push(text.get_char(i));
        i = i + 1;
    }
    assert(text@.take(len as int) =~= text@);
    chars
}

/// Anchors that were made at the same version, each with a value.
pub struct AnchorMap<T> {
    pub version: Global,
    pub entries: Vec<((usize, Bias), T)>,
}

/// Ranges of anchors that were made at the same version, each with a value.
pub struct AnchorRangeMap<T> {
    pub version: Global,
    pub entries: Vec<(Range<(usize, Bias)>, T)>,
}

/// Anchors that were made at the same version.
pub struct AnchorSet(pub AnchorMap<()>);

/// Ranges of anchors that were made at the same version.
pub struct AnchorRangeSet(pub AnchorRangeMap<()>);

/// The anchor of an entry.
pub open spec fn entry_anchor(entry: (usize, Bias), v: Version) -> AnchorModel {
    AnchorModel { offset: entry.0 as int, bias: entry.1, version: v }
}

/// The entry for an offset of the visible text.
pub open spec fn entry_for(cells: Seq<Cell>, offset: (usize, Bias)) -> (int, Bias) {
    (place_of(cells, offset.0 as int, offset.1), offset.1)
}

/// The text before an anchor, summed up.
pub open spec fn anchor_summary(content: &Content, anchor: AnchorModel) -> TextSummary {
    TextSummary {
        bytes: anchor_offset(content.cells(), anchor) as usize,
        lines: point_at(content.visible_text@, anchor_offset(content.cells(), anchor)),
    }
}

impl<'a> Content<'a> {
    /// The summary at one entry of a map.
    fn entry_summary(&self, entry: (usize, Bias), version: &Global) -> (summary: TextSummary)
        requires
            self.wf(),
        ensures
            summary == anchor_summary(self, entry_anchor(entry, version@)),
    {
        let (offset, _) = self.locate(entry.0, entry.1, version);
        TextSummary { bytes: offset, lines: self.visible_text.to_point(offset) }
    }

    /// The text before each anchor of a map, summed up, with the anchor's
    /// value.
    pub fn summaries_for_anchors<'b, T>(&self, map: &'b AnchorMap<T>) -> (summaries: Vec<
        (TextSummary, &'b T),
    >)
        requires
            self.wf(),
        ensures
            summaries@.len() == map.entries@.len(),
            forall|i: int|
                0 <= i < summaries@.len() ==> (#[trigger] summaries@[i]).0 == anchor_summary(
                    self,
                    entry_anchor(map.entries@[i].0, map.version@),
                ) && *summaries@[i].1 == map.entries@[i].1,
    {
        let mut summaries: Vec<(TextSummary, &'b T)> = Vec::new();
        let mut i: usize = 0;
        while i < map.entries.len()
            invariant
                self.wf(),
                i <= map.entries@.len(),
                summaries@.len() == i,
                forall|j: int|
                    0 <= j < i ==> (#[trigger] summaries@[j]).0 == anchor_summary(
                        self,
                        entry_anchor(map.entries@[j].0, map.version@),
                    ) && *summaries@[j].1 == map.entries@[j].1,
            decreases map.entries@.len() - i,
        {
            let summary = self.entry_summary(map.entries[i].0, &map.version);
            summaries.push((summary, &map.entries[i].1));
            i = i + 1;
        }
        summaries
    }

    /// The text before each end of each range of a map, summed up, with the
    /// range's value.
    pub fn summaries_for_anchor_ranges<'b, T>(&self, map: &'b AnchorRangeMap<T>) -> (summaries: Vec<
        (Range<TextSummary>, &'b T),
    >)
        requires
            self.wf(),
        ensures
            summaries@.len() == map.entries@.len(),
            forall|i: int|
                0 <= i < summaries@.len() ==> (#[trigger] summaries@[i]).0.start == anchor_summary(
                    self,
                    entry_anchor(map.entries@[i].0.start, map.version@),
                ) && summaries@[i].0.end == anchor_summary(
                    self,
                    entry_anchor(map.entries@[i].0.end, map.version@),
                ) && *summaries@[i].1 == map.entries@[i].1,
    {
        let mut summaries: Vec<(Range<TextSummary>, &'b T)> = Vec::new();
        let mut i: usize = 0;
        while i < map.entries.len()
            invariant
                self.wf(),
                i <= map.entries@.len(),
                summaries@.len() == i,
                forall|j: int|
                    0 <= j < i ==> (#[trigger] summaries@[j]).0.start == anchor_summary(
                        self,
                        entry_anchor(map.entries@[j].0.start, map.version@),
                    ) && summaries@[j].0.end == anchor_summary(
                        self,
                        entry_anchor(map.entries@[j].0.end, map.version@),
                    ) && *summaries@[j].1 == map.entries@[j].1,
            decreases map.entries@.len() - i,
        {
            let start = self.entry_summary(map.entries[i].0.start, &map.version);
            let end = self.entry_summary(map.entries[i].0.end, &map.version);
            summaries.push((start..end, &map.entries[i].1));
            i = i + 1;
        }
        summaries
    }

    /// Anchors for offsets of the visible text.
    pub fn anchor_map<T>(&self, entries: Vec<((usize, Bias), T)>) -> (map: AnchorMap<T>)
        requires
            self.wf(),
        ensures
            map.version@ == self.version@,
            map.entries@.len() == entries@.len(),
            forall|i: int|
                0 <= i < entries@.len() ==> {
                    let made = #[trigger] map.entries@[i];
                    &&& (made.0.0 as int, made.0.1) == entry_for(self.cells(), entries@[i].0)
                    &&& made.1 == entries@[i].1
                },
    {
        let ghost given = entries@;
        let mut rest = entries;
        let mut made: Vec<((usize, Bias), T)> = Vec::new();
        while rest.len() > 0
            invariant
                self.wf(),
                rest@.len() + made@.len() == given.len(),
                rest@ =~= given.skip(made@.len() as int),
                forall|i: int|
                    0 <= i < made@.len() ==> {
                        let entry = #[trigger] made@[i];
                        &&& (entry.0.0 as int, entry.0.1) == entry_for(self.cells(), given[i].0)
                        &&& entry.1 == given[i].1
                    },
            decreases rest@.len(),
        {
            let ghost n = made@.len() as int;
            assert(rest@[0] == given[n]);
            let ((offset, bias), value) = rest.remove(0);
            let place = self.place(offset, bias);
            made.push(((place, bias), value));
        }
        AnchorMap { version: self.version.clone(), entries: made }
    }

    /// Ranges of anchors for ranges of the visible text.
    pub fn anchor_range_map<T>(&self, entries: Vec<(Range<(usize, Bias)>, T)>) -> (map:
        AnchorRangeMap<T>)
        requires
            self.wf(),
        ensures
            map.version@ == self.version@,
            map.entries@.len() == entries@.len(),
            forall|i: int|
                0 <= i < entries@.len() ==> {
                    let made = #[trigger] map.entries@[i];
                    &&& (made.0.start.0 as int, made.0.start.1) == entry_for(
                        self.cells(),
                        entries@[i].0.start,
                    )
                    &&& (made.0.end.0 as int, made.0.end.1) == entry_for(
                        self.cells(),
                        entries@[i].0.end,
                    )
                    &&& made.1 == entries@[i].1
                },
    {
        let ghost given = entries@;
        let mut rest = entries;
        let mut made: Vec<(Range<(usize, Bias)>, T)> = Vec::new();
        while rest.len() > 0
            invariant
                self.wf(),
                rest@.len() + made@.len() == given.len(),
                rest@ =~= given.skip(made@.len() as int),
                forall|i: int|
                    0 <= i < made@.len() ==> {
                        let entry = #[trigger] made@[i];
                        &&& (entry.0.start.0 as int, entry.0.start.1) == entry_for(
                            self.cells(),
                            given[i].0.start,
                        )
                        &&& (entry.0.end.0 as int, entry.0.end.1) == entry_for(
                            self.cells(),
                            given[i].0.end,
                        )
                        &&& entry.1 == given[i].1
                    },
            decreases rest@.len(),
        {
            let ghost n = made@.len() as int;
            assert(rest@[0] == given[n]);
            let (range, value) = rest.remove(0);
            let (start_offset, start_bias) = range.start;
            let (end_offset, end_bias) = range.end;
            let start = self.place(start_offset, start_bias);
            let end = self.place(end_offset, end_bias);
            made.push(((start, start_bias)..(end, end_bias), value));
        }
        AnchorRangeMap { version: self.version.clone(), entries: made }
    }

    /// Anchors for offsets of the visible text.
    pub fn anchor_set(&self, entries: &Vec<(usize, Bias)>) -> (set: AnchorSet)
        requires
            self.wf(),
        ensures
            set.0.version@ == self.version@,
            set.0.entries@.len() == entries@.len(),
            forall|i: int|
                0 <= i < entries@.len() ==> ((#[trigger] set.0.entries@[i]).0.0 as int,
                    set.0.entries@[i].0.1) == entry_for(self.cells(), entries@[i]),
    {
        let mut pairs: Vec<((usize, Bias), ())> = Vec::new();
        let mut i: usize = 0;
        while i < entries.len()
            invariant
                i <= entries@.len(),
                pairs@.len() == i,
                forall|j: int| 0 <= j < i ==> (#[trigger] pairs@[j]).0 == entries@[j],
            decreases entries@.len() - i,
        {
            pairs.push((entries[i], ()));
            i = i + 1;
        }
        AnchorSet(self.anchor_map(pairs))
    }

    /// Ranges of anchors for ranges of the visible text.
    pub fn anchor_range_set(&self, entries: &Vec<Range<(usize, Bias)>>) -> (set: AnchorRangeSet)
        requires
            self.wf(),
        ensures
            set.0.version@ == self.version@,
            set.0.entries@.len() == entries@.len(),
            forall|i: int|
                0 <= i < entries@.len() ==> ((#[trigger] set.0.entries@[i]).0.start.0 as int,
                    set.0.entries@[i].0.start.1) == entry_for(self.cells(), entries@[i].start)
                    && (set.0.entries@[i].0.end.0 as int, set.0.entries@[i].0.end.1) == entry_for(
                    self.cells(),
                    entries@[i].end,
                ),
    {
        let mut pairs: Vec<(Range<(usize, Bias)>, ())> = Vec::new();
        let mut i: usize = 0;
        while i < entries.len()
            invariant
                i <= entries@.len(),
                pairs@.len() == i,
                forall|j: int| 0 <= j < i ==> (#[trigger] pairs@[j]).0 == entries@[j],
            decreases entries@.len() - i,
        {
            pairs.push((entries[i].start..entries[i].end, ()));
            i = i + 1;
        }
        AnchorRangeSet(self.anchor_range_map(pairs))
    }
}

} // verus!
