//! Reading the text of a buffer.

use std::ops::Range;
use vstd::prelude::*;
use vstd::utf8::*;

use crate::buffer::Buffer;
use crate::content::{ToOffset, anchor_for, anchor_offset, chars_of_str, indent_of, line_len_of};
use crate::error::Error;
use crate::operation::Anchor;
use crate::point::Point;
use crate::rope::{
    Bias, TextSummary, clipped, clipped_point, copy_range, few_rows, has_point, lemma_lines_bounds,
    newlines, point_at, summary_of,
};

verus! {

/// The text `needle` stands at offset `i` of `b`.
pub open spec fn stands_at(b: Seq<u8>, i: int, needle: Seq<u8>) -> bool {
    i + needle.len() <= b.len() && b.subrange(i, i + needle.len()) == needle
}

impl Buffer {
    pub fn text_summary(&self) -> (summary: TextSummary)
        requires
            self.wf(),
        ensures
            summary == summary_of(self@.text()),
    {
        proof {
            self.lemma_text();
        }
        self.visible_text.summary()
    }

    /// The length of the text in bytes.
    pub fn len(&self) -> (len: usize)
        requires
            self.wf(),
        ensures
            len == self@.text().len(),
    {
        proof {
            self.lemma_text();
        }
        self.content().len()
    }

    /// The length of a row, without its line feed.
    pub fn line_len(&self, row: u32) -> (len: u32)
        requires
            self.wf(),
        ensures
            len == line_len_of(self@.text(), row as int),
    {
        proof {
            self.lemma_text();
        }
        self.content().line_len(row)
    }

    /// How far a row is indented with spaces.
    pub fn indent_column_for_line(&self, row: u32) -> (column: u32)
        requires
            self.wf(),
        ensures
            column == indent_of(self@.text(), row as int),
    {
        proof {
            self.lemma_text();
        }
        self.content().indent_column_for_line(row)
    }

    /// The point where the text ends.
    pub fn max_point(&self) -> (point: Point)
        requires
            self.wf(),
        ensures
            point == point_at(self@.text(), self@.text().len() as int),
    {
        proof {
            self.lemma_text();
        }
        self.visible_text.max_point()
    }

    /// The number of rows: one more than there are line feeds.
    pub fn row_count(&self) -> (rows: u32)
        requires
            self.wf(),
            few_rows(self@.text()),
        ensures
            rows == newlines(self@.text(), self@.text().len() as int) + 1,
    {
        proof {
            self.lemma_text();
            lemma_lines_bounds(self@.text(), self@.text().len() as int);
        }
        self.max_point().row + 1
    }

    /// The whole text.
    pub fn text(&self) -> (text: String)
        requires
            self.wf(),
        ensures
            encode_utf8(text@) == self@.text(),
    {
        proof {
            self.lemma_text();
            is_char_boundary_start_end_of_seq(self@.text());
            assert(self@.text().subrange(0, self@.text().len() as int) =~= self@.text());
        }
        let len = self.len();
        self.text_for_range(0..len)
    }

    /// The text of a range.
    pub fn text_for_range<T: ToOffset>(&self, range: Range<T>) -> (text: String)
        requires
            self.wf(),
            range.start.names_place(self@.cells),
            range.end.names_place(self@.cells),
            range.start.offset_in(self@.cells) <= range.end.offset_in(self@.cells)
                <= self@.text().len(),
            is_char_boundary(self@.text(), range.start.offset_in(self@.cells)),
            is_char_boundary(self@.text(), range.end.offset_in(self@.cells)),
        ensures
            encode_utf8(text@) == self@.text().subrange(
                range.start.offset_in(self@.cells),
                range.end.offset_in(self@.cells),
            ),
    {
        proof {
            self.lemma_text();
        }
        self.content().text_for_range(range)
    }

    /// The characters of the text.
    pub fn chars(&self) -> (chars: Vec<char>)
        requires
            self.wf(),
        ensures
            encode_utf8(chars@) == self@.text(),
    {
        proof {
            self.lemma_text();
            is_char_boundary_start_end_of_seq(self@.text());
            assert(self@.text().skip(0) =~= self@.text());
        }
        let start: usize = 0;
        self.chars_at(start)
    }

    /// The characters from a position on.
    pub fn chars_at<T: ToOffset>(&self, position: T) -> (chars: Vec<char>)
        requires
            self.wf(),
            position.names_place(self@.cells),
            position.offset_in(self@.cells) <= self@.text().len(),
            is_char_boundary(self@.text(), position.offset_in(self@.cells)),
        ensures
            encode_utf8(chars@) == self@.text().skip(position.offset_in(self@.cells)),
    {
        proof {
            self.lemma_text();
        }
        self.content().chars_at(position)
    }

    /// The characters of a range.
    pub fn chars_for_range<T: ToOffset>(&self, range: Range<T>) -> (chars: Vec<char>)
        requires
            self.wf(),
            range.start.names_place(self@.cells),
            range.end.names_place(self@.cells),
            range.start.offset_in(self@.cells) <= range.end.offset_in(self@.cells)
                <= self@.text().len(),
            is_char_boundary(self@.text(), range.start.offset_in(self@.cells)),
            is_char_boundary(self@.text(), range.end.offset_in(self@.cells)),
        ensures
            encode_utf8(chars@) == self@.text().subrange(
                range.start.offset_in(self@.cells),
                range.end.offset_in(self@.cells),
            ),
    {
        let text = self.text_for_range(range);
        chars_of_str(text.as_str())
    }

    /// The bytes from a position on.
    pub fn bytes_at<T: ToOffset>(&self, position: T) -> (bytes: Vec<u8>)
        requires
            self.wf(),
            position.names_place(self@.cells),
            position.offset_in(self@.cells) <= self@.text().len(),
        ensures
            bytes@ == self@.text().skip(position.offset_in(self@.cells)),
    {
        proof {
            self.lemma_text();
        }
        let offset = position.to_offset(&self.content());
        let end = self.visible_text.len();
        assert(self@.text().subrange(offset as int, end as int) =~= self@.text().skip(
            offset as int,
        ));
        copy_range(self.visible_text.as_bytes(), offset, end)
    }

    /// Whether a text stands at a position that lies between characters.
    pub fn contains_str_at<T: ToOffset>(&self, position: T, needle: &str) -> (b: bool)
        requires
            self.wf(),
            position.names_place(self@.cells),
        ensures
            ({
                let offset = position.offset_in(self@.cells);
                b == (clipped(self@.text(), offset, Bias::Left) == offset && stands_at(
                    self@.text(),
                    offset,
                    encode_utf8(needle@),
                ))
            }),
    {
        proof {
            self.lemma_text();
        }
        let offset = position.to_offset(&self.content());
        if offset != self.clip_offset(offset, Bias::Left) {
            return false;
        }
        let bytes = self.visible_text.as_bytes();
        let wanted = needle.as_bytes();
        if wanted.len() > bytes.len() - offset {
            return false;
        }
        let mut i: usize = 0;
        while i < wanted.len()
            invariant
                i <= wanted@.len(),
                bytes@ == self@.text(),
                bytes@.len() <= usize::MAX,
                wanted@ == encode_utf8(needle@),
                offset == position.offset_in(self@.cells),
                offset + wanted@.len() <= bytes@.len(),
                forall|j: int| 0 <= j < i ==> bytes@[offset + j] == #[trigger] wanted@[j],
            decreases wanted@.len() - i,
        {
            if bytes[offset + i] != wanted[i] {
                proof {
                    assert(bytes@.subrange(offset as int, offset + wanted@.len())[i as int]
                        != wanted@[i as int]);
                }
                return false;
            }
            i = i + 1;
        }
        assert(bytes@.subrange(offset as int, offset + wanted@.len()) =~= wanted@);
        true
    }

    /// The text of a range, summed up.
    pub fn text_summary_for_range(&self, range: Range<usize>) -> (summary: TextSummary)
        requires
            self.wf(),
            range.start <= range.end <= self@.text().len(),
            is_char_boundary(self@.text(), range.start as int),
            is_char_boundary(self@.text(), range.end as int),
        ensures
            summary == summary_of(self@.text().subrange(range.start as int, range.end as int)),
    {
        proof {
            self.lemma_text();
        }
        self.content().text_summary_for_range(range)
    }

    /// An anchor that stays next to what is before a position.
    pub fn anchor_before<T: ToOffset>(&self, position: T) -> (anchor: Anchor)
        requires
            self.wf(),
            position.names_place(self@.cells),
            position.offset_in(self@.cells) <= self@.text().len(),
        ensures
            anchor@ == anchor_for(
                self@.cells,
                self@.version,
                position.offset_in(self@.cells),
                Bias::Left,
            ),
            anchor_offset(self@.cells, anchor@) == position.offset_in(self@.cells),
    {
        self.anchor_at(position, Bias::Left)
    }

    /// An anchor that stays next to what is after a position.
    pub fn anchor_after<T: ToOffset>(&self, position: T) -> (anchor: Anchor)
        requires
            self.wf(),
            position.names_place(self@.cells),
            position.offset_in(self@.cells) <= self@.text().len(),
        ensures
            anchor@ == anchor_for(
                self@.cells,
                self@.version,
                position.offset_in(self@.cells),
                Bias::Right,
            ),
            anchor_offset(self@.cells, anchor@) == position.offset_in(self@.cells),
    {
        self.anchor_at(position, Bias::Right)
    }

    /// An anchor for a position, which stays on the given side of it.
    pub fn anchor_at<T: ToOffset>(&self, position: T, bias: Bias) -> (anchor: Anchor)
        requires
            self.wf(),
            position.names_place(self@.cells),
            position.offset_in(self@.cells) <= self@.text().len(),
        ensures
            anchor@ == anchor_for(
                self@.cells,
                self@.version,
                position.offset_in(self@.cells),
                bias,
            ),
            anchor_offset(self@.cells, anchor@) == position.offset_in(self@.cells),
    {
        proof {
            self.lemma_text();
        }
        self.content().anchor_at(position, bias)
    }

    /// The point of an offset; an error past the end.
    pub fn point_for_offset(&self, offset: usize) -> (point: Result<Point, Error>)
        requires
            self.wf(),
        ensures
            match point {
                Ok(point) => offset <= self@.text().len() && point == point_at(
                    self@.text(),
                    offset as int,
                ),
                Err(error) => offset > self@.text().len() && error == Error::OffsetOutOfBounds,
            },
    {
        proof {
            self.lemma_text();
        }
        self.content().point_for_offset(offset)
    }

    /// The point, moved into the text and to a character boundary.
    pub fn clip_point(&self, point: Point, bias: Bias) -> (clip: Point)
        requires
            self.wf(),
        ensures
            clip == clipped_point(self@.text(), point, bias),
            has_point(self@.text(), clip),
    {
        proof {
            self.lemma_text();
        }
        self.visible_text.clip_point(point, bias)
    }

    /// The offset, moved to a character boundary.
    pub fn clip_offset(&self, offset: usize, bias: Bias) -> (clip: usize)
        requires
            self.wf(),
        ensures
            clip == clipped(self@.text(), offset as int, bias),
            clip <= self@.text().len(),
            is_char_boundary(self@.text(), clip as int),
    {
        proof {
            self.lemma_text();
        }
        self.visible_text.clip_offset(offset, bias)
    }
}

} // verus!
