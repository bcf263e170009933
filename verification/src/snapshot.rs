//! A buffer as it was at one moment.

use std::ops::Range;
use std::sync::Arc;

use tree_sitter::Tree;
use vstd::prelude::*;
use vstd::utf8::*;

use crate::builder::doc_of;
use crate::clock::{Global, Version};
use crate::content::{
    Content, ToOffset, anchor_for, anchor_offset, indent_of, line_len_of, row_start_of,
};
use crate::document::{Cell, Doc, all_seen};
use crate::error::Error;
use crate::fragment::Fragment;
use crate::operation::Anchor;
use crate::point::Point;
use crate::rope::{
    Bias, Rope, TextSummary, clipped, clipped_point, has_point, lemma_line_end,
    lemma_row_boundaries, line_end, offset_of_point, point_at, summary_of,
};
use crate::syntax::{Language, clone_tree};

verus! {

/// A buffer as it was at one moment.
pub struct Snapshot {
    pub visible_text: Rope,
    pub fragments: Vec<Fragment>,
    pub version: Global,
    pub tree: Option<Tree>,
    pub is_parsing: bool,
    pub language: Option<Arc<Language>>,
    /// The text that was not visible.
    pub deleted_text: Ghost<Seq<u8>>,
}

/// What a snapshot means.
#[verifier::ext_equal]
pub ghost struct SnapshotModel {
    pub text: Seq<u8>,
    pub cells: Seq<Cell>,
    pub version: Version,
    pub tree: Option<Tree>,
    pub is_parsing: bool,
    pub language: Option<Language>,
}

/// The language behind a shared pointer.
pub open spec fn language_of(language: Option<Arc<Language>>) -> Option<Language> {
    match language {
        Some(language) => Some(*language),
        None => None,
    }
}

/// Calls `Arc::clone`, which gives another pointer to the same value.
#[verifier::external_body]
pub(crate) fn share<T>(shared: &Arc<T>) -> (copy: Arc<T>)
    ensures
        copy == *shared,
{
    Arc::clone(shared)
}

pub fn clone_language(language: &Option<Arc<Language>>) -> (copy: Option<Arc<Language>>)
    ensures
        copy == *language,
{
    match language {
        Some(language) => Some(share(language)),
        None => None,
    }
}

pub fn clone_maybe_tree(tree: &Option<Tree>) -> (copy: Option<Tree>)
    ensures
        copy == *tree,
{
    match tree {
        Some(tree) => Some(clone_tree(tree)),
        None => None,
    }
}

pub fn clone_fragments(fragments: &Vec<Fragment>) -> (copy: Vec<Fragment>)
    ensures
        crate::builder::pieces_of(copy@) == crate::builder::pieces_of(fragments@),
{
    let mut copy: Vec<Fragment> = Vec::new();
    let mut i: usize = 0;
    while i < fragments.len()
        invariant
            i <= fragments@.len(),
            copy@.len() == i,
            forall|j: int| 0 <= j < i ==> (#[trigger] copy@[j])@ == fragments@[j]@,
        decreases fragments@.len() - i,
    {
        copy.push(fragments[i].clone());
        i = i + 1;
    }
    assert(crate::builder::pieces_of(copy@) =~= crate::builder::pieces_of(fragments@));
    copy
}

impl View for Snapshot {
    type V = SnapshotModel;

    open spec fn view(&self) -> SnapshotModel {
        SnapshotModel {
            text: self.visible_text@,
            cells: self.doc().cells(),
            version: self.version@,
            tree: self.tree,
            is_parsing: self.is_parsing,
            language: language_of(self.language),
        }
    }
}

impl Clone for Snapshot {
    fn clone(&self) -> (copy: Self)
        ensures
            copy@ == self@,
            copy.doc() == self.doc(),
    {
        Snapshot {
            visible_text: self.visible_text.clone(),
            fragments: clone_fragments(&self.fragments),
            version: self.version.clone(),
            tree: clone_maybe_tree(&self.tree),
            is_parsing: self.is_parsing,
            language: clone_language(&self.language),
            deleted_text: Ghost(self.deleted_text@),
        }
    }
}

/// The character has the Unicode property White_Space.
pub open spec fn is_white_space(c: char) -> bool {
    ||| '\u{9}' <= c <= '\u{d}'
    ||| c == '\u{20}'
    ||| c == '\u{85}'
    ||| c == '\u{a0}'
    ||| c == '\u{1680}'
    ||| '\u{2000}' <= c <= '\u{200a}'
    ||| c == '\u{2028}'
    ||| c == '\u{2029}'
    ||| c == '\u{202f}'
    ||| c == '\u{205f}'
    ||| c == '\u{3000}'
}

fn white_space(c: char) -> (b: bool)
    ensures
        b == is_white_space(c),
{
    ('\u{9}' <= c && c <= '\u{d}') || c == '\u{20}' || c == '\u{85}' || c == '\u{a0}' || c
        == '\u{1680}' || ('\u{2000}' <= c && c <= '\u{200a}') || c == '\u{2028}' || c == '\u{2029}'
        || c == '\u{202f}' || c == '\u{205f}' || c == '\u{3000}'
}

/// The characters of a row, without its line feed.
pub open spec fn line_chars(b: Seq<u8>, row: int) -> Seq<char> {
    decode_utf8(b.subrange(row_start_of(b, row), line_end(b, row_start_of(b, row))))
}

/// There is nothing but white space on a row.
pub open spec fn blank_line(b: Seq<u8>, row: int) -> bool {
    forall|i: int|
        0 <= i < line_chars(b, row).len() ==> is_white_space(#[trigger] line_chars(b, row)[i])
}

/// The closest row before `row` that is not blank.
pub open spec fn non_blank_before(b: Seq<u8>, row: int) -> Option<u32>
    decreases row,
{
    if row <= 0 {
        None
    } else if !blank_line(b, row - 1) {
        Some((row - 1) as u32)
    } else {
        non_blank_before(b, row - 1)
    }
}

impl Snapshot {
    pub open spec fn doc(&self) -> Doc {
        doc_of(self.fragments@, self.visible_text@, self.deleted_text@)
    }

    /// The text is in order, and the version has seen all of it.
    pub open spec fn wf(&self) -> bool {
        self.doc().wf() && all_seen(self.doc().cells(), self.version@)
    }

    /// The text, and the fragments it is made of.
    pub fn content(&self) -> (content: Content<'_>)
        ensures
            content.visible_text@ == self.visible_text@,
            content.doc() == self.doc(),
            content.version@ == self.version@,
    {
        Content {
            visible_text: &self.visible_text,
            fragments: &self.fragments,
            version: &self.version,
            deleted_text: Ghost(self.deleted_text@),
        }
    }

    pub fn len(&self) -> (len: usize)
        ensures
            len == self@.text.len(),
    {
        self.visible_text.len()
    }

    /// The length of a row, without its line feed.
    pub fn line_len(&self, row: u32) -> (len: u32)
        requires
            self.wf(),
        ensures
            len == line_len_of(self@.text, row as int),
    {
        self.content().line_len(row)
    }

    /// How far a row is indented with spaces.
    pub fn indent_column_for_line(&self, row: u32) -> (column: u32)
        requires
            self.wf(),
        ensures
            column == indent_of(self@.text, row as int),
    {
        self.content().indent_column_for_line(row)
    }

    /// The closest row before `row` that is not blank.
    pub fn prev_non_blank_row(&self, start: u32) -> (found: Option<u32>)
        requires
            self.wf(),
        ensures
            found == non_blank_before(self@.text, start as int),
    {
        let mut row: u32 = start;
        let ghost goal = non_blank_before(self@.text, start as int);
        while row > 0
            invariant
                self.wf(),
                goal == non_blank_before(self@.text, start as int),
                goal == non_blank_before(self@.text, row as int),
            decreases row,
        {
            row = row - 1;
            if !self.is_line_blank(row) {
                return Some(row);
            }
        }
        None
    }

    /// Whether there is nothing but white space on a row.
    pub fn is_line_blank(&self, row: u32) -> (blank: bool)
        requires
            self.wf(),
        ensures
            blank == blank_line(self@.text, row as int),
    {
        let start = self.visible_text.row_start(row);
        let end = self.visible_text.line_end_from(start);
        proof {
            let b = self.visible_text@;
            is_char_boundary_start_end_of_seq(b);
            lemma_row_boundaries(b, row as int, 0);
            lemma_line_end(b, start as int);
        }
        let text = self.visible_text.text_in(start, end);
        proof {
            encode_utf8_decode_utf8(text@);
        }
        let len = text.as_str().unicode_len();
        let mut i: usize = 0;
        while i < len
            invariant
                i <= len,
                len == text@.len(),
                text@ == line_chars(self@.text, row as int),
                forall|j: int| 0 <= j < i ==> is_white_space(#[trigger] text@[j]),
            decreases len - i,
        {
            if !white_space(text.as_str().get_char(i)) {
                return false;
            }
            i = i + 1;
        }
        true
    }

    pub fn text(&self) -> (text: Rope)
        ensures
            text@ == self@.text,
    {
        self.visible_text.clone()
    }

    pub fn text_summary(&self) -> (summary: TextSummary)
        requires
            self.wf(),
        ensures
            summary == summary_of(self@.text),
    {
        self.visible_text.summary()
    }

    /// The point where the text ends.
    pub fn max_point(&self) -> (point: Point)
        requires
            self.wf(),
        ensures
            point == point_at(self@.text, self@.text.len() as int),
    {
        self.visible_text.max_point()
    }

    /// The text of a range.
    pub fn text_for_range<T: ToOffset>(&self, range: Range<T>) -> (text: String)
        requires
            self.wf(),
            range.start.names_place(self@.cells),
            range.end.names_place(self@.cells),
            range.start.offset_in(self@.cells) <= range.end.offset_in(self@.cells)
                <= self@.text.len(),
            is_char_boundary(self@.text, range.start.offset_in(self@.cells)),
            is_char_boundary(self@.text, range.end.offset_in(self@.cells)),
        ensures
            encode_utf8(text@) == self@.text.subrange(
                range.start.offset_in(self@.cells),
                range.end.offset_in(self@.cells),
            ),
    {
        self.content().text_for_range(range)
    }

    /// The text of a range, summed up.
    pub fn text_summary_for_range<T: ToOffset>(&self, range: Range<T>) -> (summary: TextSummary)
        requires
            self.wf(),
            range.start.names_place(self@.cells),
            range.end.names_place(self@.cells),
            range.start.offset_in(self@.cells) <= range.end.offset_in(self@.cells)
                <= self@.text.len(),
            is_char_boundary(self@.text, range.start.offset_in(self@.cells)),
            is_char_boundary(self@.text, range.end.offset_in(self@.cells)),
        ensures
            summary == summary_of(
                self@.text.subrange(
                    range.start.offset_in(self@.cells),
                    range.end.offset_in(self@.cells),
                ),
            ),
    {
        let content = self.content();
        let start = range.start.to_offset(&content);
        let end = range.end.to_offset(&content);
        content.text_summary_for_range(start..end)
    }

    /// The point of an offset; an error past the end.
    pub fn point_for_offset(&self, offset: usize) -> (point: Result<Point, Error>)
        requires
            self.wf(),
        ensures
            match point {
                Ok(point) => offset <= self@.text.len() && point == point_at(
                    self@.text,
                    offset as int,
                ),
                Err(error) => offset > self@.text.len() && error == Error::OffsetOutOfBounds,
            },
    {
        self.content().point_for_offset(offset)
    }

    /// The offset, moved to a character boundary.
    pub fn clip_offset(&self, offset: usize, bias: Bias) -> (clip: usize)
        requires
            self.wf(),
        ensures
            clip == clipped(self@.text, offset as int, bias),
            clip <= self@.text.len(),
            is_char_boundary(self@.text, clip as int),
    {
        self.visible_text.clip_offset(offset, bias)
    }

    /// The point, moved into the text and to a character boundary.
    pub fn clip_point(&self, point: Point, bias: Bias) -> (clip: Point)
        requires
            self.wf(),
        ensures
            clip == clipped_point(self@.text, point, bias),
            has_point(self@.text, clip),
    {
        self.visible_text.clip_point(point, bias)
    }

    /// The offset of a point of the text.
    pub fn to_offset(&self, point: Point) -> (offset: usize)
        requires
            self.wf(),
            has_point(self@.text, point),
        ensures
            offset <= self@.text.len(),
            offset == offset_of_point(self@.text, point),
            point_at(self@.text, offset as int) == point,
    {
        self.visible_text.to_offset(point)
    }

    /// The point of an offset of the text.
    pub fn to_point(&self, offset: usize) -> (point: Point)
        requires
            self.wf(),
            offset <= self@.text.len(),
        ensures
            point == point_at(self@.text, offset as int),
    {
        self.visible_text.to_point(offset)
    }

    /// An anchor that stays next to what is before a position.
    pub fn anchor_before<T: ToOffset>(&self, position: T) -> (anchor: Anchor)
        requires
            self.wf(),
            position.names_place(self@.cells),
            position.offset_in(self@.cells) <= self@.text.len(),
        ensures
            anchor@ == anchor_for(
                self@.cells,
                self@.version,
                position.offset_in(self@.cells),
                Bias::Left,
            ),
            anchor_offset(self@.cells, anchor@) == position.offset_in(self@.cells),
    {
        self.content().anchor_at(position, Bias::Left)
    }

    /// An anchor that stays next to what is after a position.
    pub fn anchor_after<T: ToOffset>(&self, position: T) -> (anchor: Anchor)
        requires
            self.wf(),
            position.names_place(self@.cells),
            position.offset_in(self@.cells) <= self@.text.len(),
        ensures
            anchor@ == anchor_for(
                self@.cells,
                self@.version,
                position.offset_in(self@.cells),
                Bias::Right,
            ),
            anchor_offset(self@.cells, anchor@) == position.offset_in(self@.cells),
    {
        self.content().anchor_at(position, Bias::Right)
    }
}

} // verus!
