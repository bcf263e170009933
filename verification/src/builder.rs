//! Walking over the fragments of a document, and building a new document out
//! of the pieces.

use vstd::prelude::*;
use vstd::utf8::*;

use crate::clock::Global;
use crate::document::{
    Cell, Doc, del_before, lemma_before_grows, lemma_before_subrange, lemma_cell, lemma_cells_len,
    lemma_cells_plus, lemma_cells_slice, lemma_cells_with, lemma_fragment_boundary, lemma_plus_wf,
    lemma_slice_wf, lemma_text, lemma_visible_rank, lemma_with_wf, run_cells, seen_before,
    vis_before, visible_rank,
};
use crate::fragment::{Fragment, FragmentTextSummary, Piece};
use crate::rope::{Bias, Cursor, Rope, lemma_slice_is_text};

verus! {

/// What a list of fragments means.
pub open spec fn pieces_of(fragments: Seq<Fragment>) -> Seq<Piece> {
    fragments.map_values(|f: Fragment| f@)
}

/// The document that is stored as the given fragments and texts.
pub open spec fn doc_of(fragments: Seq<Fragment>, visible: Seq<u8>, deleted: Seq<u8>) -> Doc {
    Doc { pieces: pieces_of(fragments), visible, deleted }
}

/// How much visible and how much deleted text the fragments have.
pub fn text_summary(fragments: &Vec<Fragment>) -> (summary: FragmentTextSummary)
    requires
        vis_before(pieces_of(fragments@), fragments@.len() as int) <= usize::MAX,
        del_before(pieces_of(fragments@), fragments@.len() as int) <= usize::MAX,
    ensures
        summary.visible == vis_before(pieces_of(fragments@), fragments@.len() as int),
        summary.deleted == del_before(pieces_of(fragments@), fragments@.len() as int),
{
    let ghost pieces = pieces_of(fragments@);
    let mut summary = FragmentTextSummary::zero();
    let mut i: usize = 0;
    while i < fragments.len()
        invariant
            i <= fragments@.len(),
            pieces == pieces_of(fragments@),
            vis_before(pieces, fragments@.len() as int) <= usize::MAX,
            del_before(pieces, fragments@.len() as int) <= usize::MAX,
            summary.visible == vis_before(pieces, i as int),
            summary.deleted == del_before(pieces, i as int),
        decreases fragments@.len() - i,
    {
        proof {
            lemma_before_grows(pieces, i + 1, fragments@.len() as int);
            assert(pieces[i as int] == fragments@[i as int]@);
        }
        if fragments[i].visible {
            summary.visible = summary.visible + fragments[i].len;
        } else {
            summary.deleted = summary.deleted + fragments[i].len;
        }
        i = i + 1;
    }
    summary
}

/// A place between or before the fragments of a document that moves forward.
/// Text is counted by how much of it is visible, how much deleted, and how
/// much of it had been inserted as far as a version had seen.
pub struct FragmentCursor<'a> {
    pub fragments: &'a Vec<Fragment>,
    pub version: &'a Global,
    pub index: usize,
    pub start: FragmentTextSummary,
    pub offset: usize,
}

impl<'a> FragmentCursor<'a> {
    /// The fragments that the cursor moves over.
    pub open spec fn pieces(&self) -> Seq<Piece> {
        pieces_of(self.fragments@)
    }

    /// The counts are those of the fragments passed.
    pub open spec fn wf(&self) -> bool {
        &&& self.index <= self.fragments@.len()
        &&& self.start.visible == vis_before(self.pieces(), self.index as int)
        &&& self.start.deleted == del_before(self.pieces(), self.index as int)
        &&& self.offset == seen_before(self.pieces(), self.version@, self.index as int)
        &&& vis_before(self.pieces(), self.fragments@.len() as int) + del_before(
            self.pieces(),
            self.fragments@.len() as int,
        ) <= usize::MAX
    }

    /// The cursor moves over the same fragments as `other`, for the same
    /// version.
    pub open spec fn alongside(&self, other: &FragmentCursor<'a>) -> bool {
        &&& self.fragments == other.fragments
        &&& self.version == other.version
    }

    /// A cursor at the first fragment.
    pub fn new(fragments: &'a Vec<Fragment>, version: &'a Global) -> (cursor: FragmentCursor<'a>)
        requires
            vis_before(pieces_of(fragments@), fragments@.len() as int) + del_before(
                pieces_of(fragments@),
                fragments@.len() as int,
            ) <= usize::MAX,
        ensures
            cursor.wf(),
            cursor.fragments == fragments,
            cursor.version == version,
            cursor.index == 0,
    {
        FragmentCursor {
            fragments,
            version,
            index: 0,
            start: FragmentTextSummary::zero(),
            offset: 0,
        }
    }

    /// The fragment at the cursor; none at the end.
    pub fn item(&self) -> (item: Option<&'a Fragment>)
        requires
            self.wf(),
        ensures
            match item {
                Some(fragment) => self.index < self.fragments@.len() && *fragment
                    == self.fragments@[self.index as int],
                None => self.index == self.fragments@.len(),
            },
    {
        if self.index < self.fragments.len() {
            Some(&self.fragments[self.index])
        } else {
            None
        }
    }

    proof fn lemma_bounds(&self, i: int)
        requires
            self.wf(),
            0 <= i <= self.fragments@.len(),
        ensures
            0 <= vis_before(self.pieces(), i) + del_before(self.pieces(), i) <= usize::MAX,
            0 <= vis_before(self.pieces(), i),
            0 <= del_before(self.pieces(), i),
            0 <= seen_before(self.pieces(), self.version@, i) <= vis_before(self.pieces(), i)
                + del_before(self.pieces(), i),
        decreases i,
    {
        lemma_before_grows(self.pieces(), 0, i);
        lemma_before_grows(self.pieces(), i, self.fragments@.len() as int);
        if i > 0 {
            self.lemma_bounds(i - 1);
        }
    }

    /// How much visible text there is up to the end of the fragment at the
    /// cursor.
    pub fn end_visible(&self) -> (end: usize)
        requires
            self.wf(),
        ensures
            end == if self.index < self.fragments@.len() {
                vis_before(self.pieces(), self.index + 1)
            } else {
                vis_before(self.pieces(), self.index as int)
            },
    {
        match self.item() {
            Some(fragment) => {
                proof {
                    self.lemma_bounds(self.index + 1);
                }
                if fragment.visible {
                    self.start.visible + fragment.len
                } else {
                    self.start.visible
                }
            },
            None => self.start.visible,
        }
    }

    /// How much text the version had seen up to the end of the fragment at the
    /// cursor.
    pub fn end_offset(&self) -> (end: usize)
        requires
            self.wf(),
        ensures
            end == if self.index < self.fragments@.len() {
                seen_before(self.pieces(), self.version@, self.index + 1)
            } else {
                seen_before(self.pieces(), self.version@, self.index as int)
            },
    {
        match self.item() {
            Some(fragment) => {
                proof {
                    self.lemma_bounds(self.index + 1);
                }
                if fragment.is_observed(self.version) {
                    self.offset + fragment.len
                } else {
                    self.offset
                }
            },
            None => self.offset,
        }
    }

    /// Moves to the next fragment.
    pub fn next(&mut self)
        requires
            old(self).wf(),
            old(self).index < old(self).fragments@.len(),
        ensures
            final(self).wf(),
            final(self).alongside(old(self)),
            final(self).index == old(self).index + 1,
    {
        let visible = self.end_visible();
        let offset = self.end_offset();
        proof {
            self.lemma_bounds(self.index + 1);
        }
        let fragment = &self.fragments[self.index];
        assert(self.index < self.fragments.len());
        if !fragment.visible {
            self.start.deleted = self.start.deleted + fragment.len;
        }
        self.start.visible = visible;
        self.offset = offset;
        self.index = self.index + 1;
    }

    /// Moves to the next fragment, and adds the one passed to those passed
    /// since fragment `from`.
    fn take(&mut self, slice: &mut Vec<Fragment>, Ghost(from): Ghost<int>)
        requires
            old(self).wf(),
            0 <= from <= old(self).index < old(self).fragments@.len(),
            pieces_of(old(slice)@) == old(self).pieces().subrange(from, old(self).index as int),
        ensures
            final(self).wf(),
            final(self).alongside(old(self)),
            final(self).index == old(self).index + 1,
            pieces_of(final(slice)@) == old(self).pieces().subrange(
                from,
                final(self).index as int,
            ),
    {
        let fragment = self.fragments[self.index].clone();
        proof {
            let passed = slice@;
            assert(pieces_of(passed.push(fragment)) =~= pieces_of(passed).push(fragment@));
            assert(self.pieces().subrange(from, self.index + 1) =~= self.pieces().subrange(
                from,
                self.index as int,
            ).push(self.pieces()[self.index as int]));
        }
        slice.push(fragment);
        self.next();
    }

    /// Moves to the first fragment, from the one at the cursor on, that ends
    /// after `target` in the visible text (for `Bias::Left`: that ends at or
    /// after it).
    pub fn seek_visible(&mut self, target: usize, bias: Bias)
        requires
            old(self).wf(),
        ensures
            final(self).wf(),
            final(self).alongside(old(self)),
            old(self).index <= final(self).index,
            old(self).index < final(self).index ==> passes(
                vis_before(old(self).pieces(), final(self).index as int),
                target as int,
                bias,
            ),
            final(self).index < final(self).fragments@.len() ==> !passes(
                vis_before(old(self).pieces(), final(self).index + 1),
                target as int,
                bias,
            ),
    {
        while self.index < self.fragments.len()
            invariant
                self.wf(),
                self.alongside(old(self)),
                old(self).index <= self.index,
                old(self).index < self.index ==> passes(
                    vis_before(self.pieces(), self.index as int),
                    target as int,
                    bias,
                ),
            ensures
                self.index < self.fragments@.len() ==> !passes(
                    vis_before(self.pieces(), self.index + 1),
                    target as int,
                    bias,
                ),
            decreases self.fragments@.len() - self.index,
        {
            let end = self.end_visible();
            if !is_passed(end, target, bias) {
                break;
            }
            self.next();
        }
    }

    /// The same for text that the version had seen.
    pub fn seek_offset(&mut self, target: usize, bias: Bias)
        requires
            old(self).wf(),
        ensures
            final(self).wf(),
            final(self).alongside(old(self)),
            old(self).index <= final(self).index,
            old(self).index < final(self).index ==> passes(
                seen_before(old(self).pieces(), old(self).version@, final(self).index as int),
                target as int,
                bias,
            ),
            final(self).index < final(self).fragments@.len() ==> !passes(
                seen_before(old(self).pieces(), old(self).version@, final(self).index + 1),
                target as int,
                bias,
            ),
    {
        while self.index < self.fragments.len()
            invariant
                self.wf(),
                self.alongside(old(self)),
                old(self).index <= self.index,
                old(self).index < self.index ==> passes(
                    seen_before(self.pieces(), self.version@, self.index as int),
                    target as int,
                    bias,
                ),
            ensures
                self.index < self.fragments@.len() ==> !passes(
                    seen_before(self.pieces(), self.version@, self.index + 1),
                    target as int,
                    bias,
                ),
            decreases self.fragments@.len() - self.index,
        {
            let end = self.end_offset();
            if !is_passed(end, target, bias) {
                break;
            }
            self.next();
        }
    }

    /// Moves to the end of the document, and returns the fragments passed.
    pub fn suffix(&mut self) -> (slice: Vec<Fragment>)
        requires
            old(self).wf(),
        ensures
            final(self).wf(),
            final(self).alongside(old(self)),
            final(self).index == old(self).fragments@.len(),
            pieces_of(slice@) == old(self).pieces().subrange(
                old(self).index as int,
                final(self).index as int,
            ),
    {
        let mut slice: Vec<Fragment> = Vec::new();
        let ghost from = self.index as int;
        while self.index < self.fragments.len()
            invariant
                self.wf(),
                self.alongside(old(self)),
                old(self).index == from,
                from <= self.index,
                pieces_of(slice@) =~= self.pieces().subrange(from, self.index as int),
            decreases self.fragments@.len() - self.index,
        {
            self.take(&mut slice, Ghost(from));
        }
        slice
    }

    /// Moves to the first fragment, from the one at the cursor on, that ends
    /// after `target` in the visible text (for `Bias::Left`: that ends at or
    /// after it), and returns the fragments passed.
    pub fn slice_visible(&mut self, target: usize, bias: Bias) -> (slice: Vec<Fragment>)
        requires
            old(self).wf(),
        ensures
            final(self).wf(),
            final(self).alongside(old(self)),
            old(self).index <= final(self).index,
            pieces_of(slice@) == old(self).pieces().subrange(
                old(self).index as int,
                final(self).index as int,
            ),
            forall|j: int|
                old(self).index < j <= final(self).index ==> passes(
                    #[trigger] vis_before(old(self).pieces(), j),
                    target as int,
                    bias,
                ),
            final(self).index < final(self).fragments@.len() ==> !passes(
                vis_before(old(self).pieces(), final(self).index + 1),
                target as int,
                bias,
            ),
    {
        let mut slice: Vec<Fragment> = Vec::new();
        let ghost from = self.index as int;
        while self.index < self.fragments.len()
            invariant
                self.wf(),
                self.alongside(old(self)),
                old(self).index == from,
                from <= self.index,
                pieces_of(slice@) =~= self.pieces().subrange(from, self.index as int),
                forall|j: int|
                    from < j <= self.index ==> passes(
                        #[trigger] vis_before(self.pieces(), j),
                        target as int,
                        bias,
                    ),
            ensures
                self.index < self.fragments@.len() ==> !passes(
                    vis_before(self.pieces(), self.index + 1),
                    target as int,
                    bias,
                ),
            decreases self.fragments@.len() - self.index,
        {
            let end = self.end_visible();
            if !is_passed(end, target, bias) {
                break;
            }
            self.take(&mut slice, Ghost(from));
        }
        slice
    }

    /// The same for text that the version had seen.
    pub fn slice_offset(&mut self, target: usize, bias: Bias) -> (slice: Vec<Fragment>)
        requires
            old(self).wf(),
        ensures
            final(self).wf(),
            final(self).alongside(old(self)),
            old(self).index <= final(self).index,
            pieces_of(slice@) == old(self).pieces().subrange(
                old(self).index as int,
                final(self).index as int,
            ),
            forall|j: int|
                old(self).index < j <= final(self).index ==> passes(
                    #[trigger] seen_before(old(self).pieces(), old(self).version@, j),
                    target as int,
                    bias,
                ),
            final(self).index < final(self).fragments@.len() ==> !passes(
                seen_before(old(self).pieces(), old(self).version@, final(self).index + 1),
                target as int,
                bias,
            ),
    {
        let mut slice: Vec<Fragment> = Vec::new();
        let ghost from = self.index as int;
        while self.index < self.fragments.len()
            invariant
                self.wf(),
                self.alongside(old(self)),
                old(self).index == from,
                from <= self.index,
                pieces_of(slice@) =~= self.pieces().subrange(from, self.index as int),
                forall|j: int|
                    from < j <= self.index ==> passes(
                        #[trigger] seen_before(self.pieces(), self.version@, j),
                        target as int,
                        bias,
                    ),
            ensures
                self.index < self.fragments@.len() ==> !passes(
                    seen_before(self.pieces(), self.version@, self.index + 1),
                    target as int,
                    bias,
                ),
            decreases self.fragments@.len() - self.index,
        {
            let end = self.end_offset();
            if !is_passed(end, target, bias) {
                break;
            }
            self.take(&mut slice, Ghost(from));
        }
        slice
    }
}

/// A search for `target` goes on past a fragment that ends at `end`.
pub open spec fn passes(end: int, target: int, bias: Bias) -> bool {
    match bias {
        Bias::Left => end < target,
        Bias::Right => end <= target,
    }
}

/// Whether a search for `target` goes on past a fragment that ends at `end`.
pub fn is_passed(end: usize, target: usize, bias: Bias) -> (b: bool)
    ensures
        b == passes(end as int, target as int, bias),
{
    match bias {
        Bias::Left => end < target,
        Bias::Right => end <= target,
    }
}

/// What a `RopeBuilder` means: the earlier texts, how much of each has been
/// used, and the new texts so far.
#[verifier::ext_equal]
pub ghost struct Ropes {
    pub old_visible: Seq<u8>,
    pub old_deleted: Seq<u8>,
    pub visible_at: int,
    pub deleted_at: int,
    pub new_visible: Seq<u8>,
    pub new_deleted: Seq<u8>,
}

/// Something that is added to the new texts: the next bytes of one of the
/// earlier ones, or text that is new.
pub ghost enum Push {
    Next { len: int, was_visible: bool, is_visible: bool },
    Text { text: Seq<u8> },
}

/// The texts after something has been added.
pub open spec fn after_push(r: Ropes, push: Push) -> Ropes {
    match push {
        Push::Next { len, was_visible, is_visible } => {
            let text = if was_visible {
                r.old_visible.subrange(r.visible_at, r.visible_at + len)
            } else {
                r.old_deleted.subrange(r.deleted_at, r.deleted_at + len)
            };
            Ropes {
                visible_at: if was_visible {
                    r.visible_at + len
                } else {
                    r.visible_at
                },
                deleted_at: if was_visible {
                    r.deleted_at
                } else {
                    r.deleted_at + len
                },
                new_visible: if is_visible {
                    r.new_visible + text
                } else {
                    r.new_visible
                },
                new_deleted: if is_visible {
                    r.new_deleted
                } else {
                    r.new_deleted + text
                },
                ..r
            }
        },
        Push::Text { text } => Ropes { new_visible: r.new_visible + text, ..r },
    }
}

/// The texts after several things have been added, one after the other.
pub open spec fn after_pushes(r: Ropes, pushes: Seq<Push>) -> Ropes
    decreases pushes.len(),
{
    if pushes.len() == 0 {
        r
    } else {
        after_push(after_pushes(r, pushes.drop_last()), pushes.last())
    }
}

/// What is left of the earlier texts is enough for all that is to be added.
pub open spec fn can_push(r: Ropes, pushes: Seq<Push>) -> bool
    decreases pushes.len(),
{
    pushes.len() > 0 ==> can_push(r, pushes.drop_last()) && match pushes.last() {
        Push::Next { len, was_visible, is_visible } => {
            let now = after_pushes(r, pushes.drop_last());
            0 <= len && if was_visible {
                now.visible_at + len <= now.old_visible.len()
            } else {
                now.deleted_at + len <= now.old_deleted.len()
            }
        },
        Push::Text { text } => true,
    }
}

/// How much of what is added is new.
pub open spec fn new_len(pushes: Seq<Push>) -> int
    decreases pushes.len(),
{
    if pushes.len() == 0 {
        0
    } else {
        new_len(pushes.drop_last()) + match pushes.last() {
            Push::Next { len, was_visible, is_visible } => 0,
            Push::Text { text } => text.len() as int,
        }
    }
}

/// The new texts, with what is left of the earlier ones at their ends.
pub open spec fn finished(r: Ropes) -> (Seq<u8>, Seq<u8>) {
    (r.new_visible + r.old_visible.skip(r.visible_at), r.new_deleted + r.old_deleted.skip(
        r.deleted_at,
    ))
}

/// No text is lost and none comes twice, whatever is added on the way: the new
/// texts are together as long as the earlier ones and what was new. If nothing
/// is added, they are the earlier ones.
pub proof fn law_no_text_is_lost(visible: Seq<u8>, deleted: Seq<u8>, pushes: Seq<Push>)
    requires
        can_push(starting(visible, deleted), pushes),
    ensures
        ({
            let made = finished(after_pushes(starting(visible, deleted), pushes));
            &&& made.0.len() + made.1.len() == visible.len() + deleted.len() + new_len(pushes)
            &&& pushes.len() == 0 ==> made == (visible, deleted)
        }),
{
    let start = starting(visible, deleted);
    lemma_pushes(start, pushes);
    assert(finished(start).0 =~= visible);
    assert(finished(start).1 =~= deleted);
}

/// The texts before anything has been added.
pub open spec fn starting(visible: Seq<u8>, deleted: Seq<u8>) -> Ropes {
    Ropes {
        old_visible: visible,
        old_deleted: deleted,
        visible_at: 0,
        deleted_at: 0,
        new_visible: Seq::empty(),
        new_deleted: Seq::empty(),
    }
}

proof fn lemma_pushes(r: Ropes, pushes: Seq<Push>)
    requires
        can_push(r, pushes),
        0 <= r.visible_at <= r.old_visible.len(),
        0 <= r.deleted_at <= r.old_deleted.len(),
    ensures
        ({
            let now = after_pushes(r, pushes);
            &&& now.old_visible == r.old_visible
            &&& now.old_deleted == r.old_deleted
            &&& r.visible_at <= now.visible_at <= r.old_visible.len()
            &&& r.deleted_at <= now.deleted_at <= r.old_deleted.len()
            &&& now.new_visible.len() + now.new_deleted.len() == r.new_visible.len()
                + r.new_deleted.len() + (now.visible_at - r.visible_at) + (now.deleted_at
                - r.deleted_at) + new_len(pushes)
        }),
    decreases pushes.len(),
{
    if pushes.len() > 0 {
        lemma_pushes(r, pushes.drop_last());
    }
}

impl<'a> View for RopeBuilder<'a> {
    type V = Ropes;

    open spec fn view(&self) -> Ropes {
        Ropes {
            old_visible: self.old_visible_cursor.text(),
            old_deleted: self.old_deleted_cursor.text(),
            visible_at: self.old_visible_cursor.at(),
            deleted_at: self.old_deleted_cursor.at(),
            new_visible: self.new_visible@,
            new_deleted: self.new_deleted@,
        }
    }
}

/// Builds the visible and the deleted text of a document out of those of an
/// earlier one.
pub struct RopeBuilder<'a> {
    pub old_visible_cursor: Cursor<'a>,
    pub old_deleted_cursor: Cursor<'a>,
    pub new_visible: Rope,
    pub new_deleted: Rope,
}

impl<'a> RopeBuilder<'a> {
    pub open spec fn wf(&self) -> bool {
        &&& self.old_visible_cursor.wf()
        &&& self.old_deleted_cursor.wf()
        &&& self.new_visible.wf()
        &&& self.new_deleted.wf()
    }

    /// The same earlier texts as those of `other`.
    pub open spec fn same_old(&self, other: &RopeBuilder<'a>) -> bool {
        &&& self.old_visible_cursor.text() == other.old_visible_cursor.text()
        &&& self.old_deleted_cursor.text() == other.old_deleted_cursor.text()
    }

    pub fn new(old_visible_cursor: Cursor<'a>, old_deleted_cursor: Cursor<'a>) -> (builder:
        RopeBuilder<'a>)
        requires
            old_visible_cursor.wf(),
            old_deleted_cursor.wf(),
        ensures
            builder.wf(),
            builder.old_visible_cursor == old_visible_cursor,
            builder.old_deleted_cursor == old_deleted_cursor,
            builder.new_visible@ == Seq::<u8>::empty(),
            builder.new_deleted@ == Seq::<u8>::empty(),
    {
        RopeBuilder {
            old_visible_cursor,
            old_deleted_cursor,
            new_visible: Rope::new(),
            new_deleted: Rope::new(),
        }
    }

    /// Moves the next `len.visible` bytes of visible text and the next
    /// `len.deleted` bytes of deleted text over as they are.
    pub fn push_tree(&mut self, len: FragmentTextSummary)
        requires
            old(self).wf(),
            old(self).old_visible_cursor.at() + len.visible
                <= old(self).old_visible_cursor.text().len(),
            old(self).old_deleted_cursor.at() + len.deleted
                <= old(self).old_deleted_cursor.text().len(),
            is_char_boundary(
                old(self).old_visible_cursor.text(),
                old(self).old_visible_cursor.at() + len.visible,
            ),
            is_char_boundary(
                old(self).old_deleted_cursor.text(),
                old(self).old_deleted_cursor.at() + len.deleted,
            ),
            old(self).new_visible@.len() + len.visible <= usize::MAX,
            old(self).new_deleted@.len() + len.deleted <= usize::MAX,
        ensures
            final(self).wf(),
            final(self).same_old(old(self)),
            final(self).old_visible_cursor.at() == old(self).old_visible_cursor.at() + len.visible,
            final(self).old_deleted_cursor.at() == old(self).old_deleted_cursor.at() + len.deleted,
            final(self).new_visible@ == old(self).new_visible@ + old(
                self,
            ).old_visible_cursor.text().subrange(
                old(self).old_visible_cursor.at(),
                old(self).old_visible_cursor.at() + len.visible,
            ),
            final(self).new_deleted@ == old(self).new_deleted@ + old(
                self,
            ).old_deleted_cursor.text().subrange(
                old(self).old_deleted_cursor.at(),
                old(self).old_deleted_cursor.at() + len.deleted,
            ),
            final(self)@ == after_pushes(
                old(self)@,
                seq![
                    Push::Next { len: len.visible as int, was_visible: true, is_visible: true },
                    Push::Next { len: len.deleted as int, was_visible: false, is_visible: false },
                ],
            ),
    {
        proof {
            reveal_with_fuel(after_pushes, 3);
        }
        self.push(len.visible, true, true);
        self.push(len.deleted, false, false);
    }

    /// Moves the next `len` bytes of visible or deleted text over to the
    /// visible or the deleted text.
    pub fn push(&mut self, len: usize, was_visible: bool, is_visible: bool)
        requires
            old(self).wf(),
            was_visible ==> {
                &&& old(self).old_visible_cursor.at() + len
                    <= old(self).old_visible_cursor.text().len()
                &&& is_char_boundary(
                    old(self).old_visible_cursor.text(),
                    old(self).old_visible_cursor.at() + len,
                )
            },
            !was_visible ==> {
                &&& old(self).old_deleted_cursor.at() + len
                    <= old(self).old_deleted_cursor.text().len()
                &&& is_char_boundary(
                    old(self).old_deleted_cursor.text(),
                    old(self).old_deleted_cursor.at() + len,
                )
            },
            is_visible ==> old(self).new_visible@.len() + len <= usize::MAX,
            !is_visible ==> old(self).new_deleted@.len() + len <= usize::MAX,
        ensures
            final(self).wf(),
            final(self).same_old(old(self)),
            final(self).old_visible_cursor.at() == old(self).old_visible_cursor.at() + if was_visible {
                len as int
            } else {
                0
            },
            final(self).old_deleted_cursor.at() == old(self).old_deleted_cursor.at() + if was_visible {
                0
            } else {
                len as int
            },
            final(self).new_visible@ == if is_visible {
                old(self).new_visible@ + old(self).next_text(len as int, was_visible)
            } else {
                old(self).new_visible@
            },
            final(self).new_deleted@ == if is_visible {
                old(self).new_deleted@
            } else {
                old(self).new_deleted@ + old(self).next_text(len as int, was_visible)
            },
            final(self)@ == after_push(
                old(self)@,
                Push::Next { len: len as int, was_visible, is_visible },
            ),
    {
        let text = if was_visible {
            let end = self.old_visible_cursor.offset() + len;
            self.old_visible_cursor.slice(end)
        } else {
            let end = self.old_deleted_cursor.offset() + len;
            self.old_deleted_cursor.slice(end)
        };
        if is_visible {
            self.new_visible.append(text);
        } else {
            self.new_deleted.append(text);
        }
    }

    /// The next `len` bytes of visible or deleted text.
    pub open spec fn next_text(&self, len: int, was_visible: bool) -> Seq<u8> {
        if was_visible {
            self.old_visible_cursor.text().subrange(
                self.old_visible_cursor.at(),
                self.old_visible_cursor.at() + len,
            )
        } else {
            self.old_deleted_cursor.text().subrange(
                self.old_deleted_cursor.at(),
                self.old_deleted_cursor.at() + len,
            )
        }
    }

    /// Moves the text of a fragment over.
    pub fn push_fragment(&mut self, fragment: &Fragment, was_visible: bool)
        requires
            old(self).wf(),
            was_visible ==> {
                &&& old(self).old_visible_cursor.at() + fragment.len
                    <= old(self).old_visible_cursor.text().len()
                &&& is_char_boundary(
                    old(self).old_visible_cursor.text(),
                    old(self).old_visible_cursor.at() + fragment.len,
                )
            },
            !was_visible ==> {
                &&& old(self).old_deleted_cursor.at() + fragment.len
                    <= old(self).old_deleted_cursor.text().len()
                &&& is_char_boundary(
                    old(self).old_deleted_cursor.text(),
                    old(self).old_deleted_cursor.at() + fragment.len,
                )
            },
            fragment.visible ==> old(self).new_visible@.len() + fragment.len <= usize::MAX,
            !fragment.visible ==> old(self).new_deleted@.len() + fragment.len <= usize::MAX,
        ensures
            final(self).wf(),
            final(self).same_old(old(self)),
            final(self).old_visible_cursor.at() == old(self).old_visible_cursor.at() + if was_visible {
                fragment.len as int
            } else {
                0
            },
            final(self).old_deleted_cursor.at() == old(self).old_deleted_cursor.at() + if was_visible {
                0
            } else {
                fragment.len as int
            },
            final(self).new_visible@ == if fragment.visible {
                old(self).new_visible@ + old(self).next_text(fragment.len as int, was_visible)
            } else {
                old(self).new_visible@
            },
            final(self).new_deleted@ == if fragment.visible {
                old(self).new_deleted@
            } else {
                old(self).new_deleted@ + old(self).next_text(fragment.len as int, was_visible)
            },
            final(self)@ == after_push(
                old(self)@,
                Push::Next {
                    len: fragment.len as int,
                    was_visible,
                    is_visible: fragment.visible,
                },
            ),
    {
        self.push(fragment.len, was_visible, fragment.visible)
    }

    /// Adds new visible text.
    pub fn push_str(&mut self, text: &str)
        requires
            old(self).wf(),
            old(self).new_visible@.len() + encode_utf8(text@).len() <= usize::MAX,
        ensures
            final(self).wf(),
            final(self).old_visible_cursor == old(self).old_visible_cursor,
            final(self).old_deleted_cursor == old(self).old_deleted_cursor,
            final(self).new_visible@ == old(self).new_visible@ + encode_utf8(text@),
            final(self).new_deleted@ == old(self).new_deleted@,
            final(self)@ == after_push(old(self)@, Push::Text { text: encode_utf8(text@) }),
    {
        self.new_visible.push(text);
    }

    /// The new texts, with what is left of the earlier ones at their ends.
    pub fn finish(self) -> (ropes: (Rope, Rope))
        requires
            self.wf(),
            self.new_visible@.len() + self.old_visible_cursor.text().len()
                - self.old_visible_cursor.at() <= usize::MAX,
            self.new_deleted@.len() + self.old_deleted_cursor.text().len()
                - self.old_deleted_cursor.at() <= usize::MAX,
        ensures
            ropes.0.wf(),
            ropes.1.wf(),
            ropes.0@ == self.new_visible@ + self.old_visible_cursor.text().skip(
                self.old_visible_cursor.at(),
            ),
            ropes.1@ == self.new_deleted@ + self.old_deleted_cursor.text().skip(
                self.old_deleted_cursor.at(),
            ),
            (ropes.0@, ropes.1@) == finished(self@),
    {
        let mut builder = self;
        builder.new_visible.append(builder.old_visible_cursor.suffix());
        builder.new_deleted.append(builder.old_deleted_cursor.suffix());
        (builder.new_visible, builder.new_deleted)
    }
}

/// Builds a document out of an earlier one.
pub struct DocumentBuilder<'a> {
    pub ropes: RopeBuilder<'a>,
    pub fragments: Vec<Fragment>,
}

/// The bytes of the cells from `from` to `to`.
pub open spec fn cell_bytes(cells: Seq<Cell>, from: int, to: int) -> Seq<u8> {
    Seq::new((to - from) as nat, |i: int| cells[from + i].byte)
}

impl<'a> DocumentBuilder<'a> {
    /// The document built so far.
    pub open spec fn built(&self) -> Doc {
        doc_of(self.fragments@, self.ropes.new_visible@, self.ropes.new_deleted@)
    }

    pub open spec fn wf(&self) -> bool {
        &&& self.ropes.wf()
        &&& self.built().wf()
    }

    /// The first `at` cells of `d` have been used up.
    pub open spec fn used(&self, d: Doc, at: int) -> bool {
        &&& self.ropes.old_visible_cursor.text() == d.visible
        &&& self.ropes.old_deleted_cursor.text() == d.deleted
        &&& self.ropes.old_visible_cursor.at() == visible_rank(d.cells(), at)
        &&& self.ropes.old_deleted_cursor.at() == at - visible_rank(d.cells(), at)
    }

    /// Starts with nothing built and nothing used up.
    pub fn new(visible: &'a Rope, deleted: &'a Rope, Ghost(d): Ghost<Doc>) -> (builder:
        DocumentBuilder<'a>)
        requires
            visible.wf(),
            deleted.wf(),
            d.visible == visible@,
            d.deleted == deleted@,
        ensures
            builder.wf(),
            builder.used(d, 0),
            builder.built().cells() == Seq::<Cell>::empty(),
    {
        proof {
            is_char_boundary_start_end_of_seq(visible@);
            is_char_boundary_start_end_of_seq(deleted@);
        }
        let builder = DocumentBuilder {
            ropes: RopeBuilder::new(visible.cursor(0), deleted.cursor(0)),
            fragments: Vec::new(),
        };
        builder
    }

    /// Uses the fragments from `a` to `b` as they are.
    pub fn push_slice(
        &mut self,
        slice: Vec<Fragment>,
        Ghost(d): Ghost<Doc>,
        Ghost(a): Ghost<int>,
        Ghost(b): Ghost<int>,
    )
        requires
            old(self).wf(),
            d.wf(),
            0 <= a <= b <= d.n(),
            old(self).used(d, d.len_before(a)),
            pieces_of(slice@) == d.pieces.subrange(a, b),
            old(self).built().cells().len() + d.len_before(b) - d.len_before(a) < usize::MAX,
        ensures
            final(self).wf(),
            final(self).used(d, d.len_before(b)),
            final(self).built().cells() == old(self).built().cells() + d.cells().subrange(
                d.len_before(a),
                d.len_before(b),
            ),
    {
        let mut slice = slice;
        let ghost before = self.built();
        proof {
            lemma_cells_slice(d, a, b);
            lemma_slice_wf(d, a, b);
            lemma_cells_len(before, before.n());
            lemma_before_subrange(d.pieces, a, b, b);
            lemma_before_grows(d.pieces, a, b);
            lemma_before_grows(d.pieces, b, d.n());
            lemma_visible_rank(d, a, 0);
            lemma_visible_rank(d, b, 0);
            lemma_fragment_boundary(d, a);
            lemma_fragment_boundary(d, b);
            lemma_plus_wf(before, d.slice(a, b));
            lemma_cells_plus(before, d.slice(a, b));
        }
        let summary = text_summary(&slice);
        self.ropes.push_tree(summary);
        let ghost added = slice@;
        self.fragments.append(&mut slice);
        proof {
            assert(pieces_of(self.fragments@) =~= before.pieces + pieces_of(added));
            assert(self.built() =~= before.plus(d.slice(a, b)));
        }
    }

    /// Uses the next bytes, which are part of fragment `i` from its byte `t`
    /// on, as the fragment given.
    pub fn push_part(
        &mut self,
        fragment: Fragment,
        was_visible: bool,
        Ghost(d): Ghost<Doc>,
        Ghost(i): Ghost<int>,
        Ghost(t): Ghost<int>,
    )
        requires
            old(self).wf(),
            d.wf(),
            0 <= i < d.n(),
            0 <= t,
            fragment.len > 0,
            t + fragment.len <= d.pieces[i].len,
            was_visible == d.pieces[i].visible,
            old(self).used(d, d.len_before(i) + t),
            !is_continuation_byte(d.text(i)[t]),
            t + fragment.len < d.pieces[i].len ==> !is_continuation_byte(
                d.text(i)[t + fragment.len],
            ),
            old(self).built().cells().len() + fragment.len < usize::MAX,
        ensures
            final(self).wf(),
            final(self).used(d, d.len_before(i) + t + fragment.len),
            final(self).built().cells() == old(self).built().cells() + run_cells(
                fragment@,
                cell_bytes(
                    d.cells(),
                    d.len_before(i) + t,
                    d.len_before(i) + t + fragment.len,
                ),
            ),
    {
        let ghost before = self.built();
        let ghost text = self.ropes.next_text(fragment.len as int, was_visible);
        proof {
            let v0 = vis_before(d.pieces, i);
            let d0 = del_before(d.pieces, i);
            let n = fragment.len as int;
            lemma_text(d, i);
            lemma_cells_len(before, before.n());
            lemma_visible_rank(d, i, t);
            lemma_visible_rank(d, i, t + n);
            lemma_fragment_boundary(d, i);
            lemma_fragment_boundary(d, i + 1);
            let whole = if was_visible {
                d.visible
            } else {
                d.deleted
            };
            let at = if was_visible {
                v0 + t
            } else {
                d0 + t
            };
            assert(whole[at] == d.text(i)[t]);
            is_char_boundary_iff_not_is_continuation_byte(whole, at);
            if t + n < d.pieces[i].len {
                assert(whole[at + n] == d.text(i)[t + n]);
                is_char_boundary_iff_not_is_continuation_byte(whole, at + n);
            }
            lemma_slice_is_text(whole, at, at + n);
            assert(text =~= whole.subrange(at, at + n));
            assert(text =~= cell_bytes(d.cells(), d.len_before(i) + t, d.len_before(i) + t + n))
                by {
                assert forall|k: int| 0 <= k < n implies #[trigger] text[k] == d.cells()[(
                d.len_before(i) + t) + k].byte by {
                    lemma_cell(d, i, t + k);
                    assert(d.text(i)[t + k] == whole[at + k]);
                }
            }
            lemma_with_wf(before, fragment@, text);
            lemma_cells_with(before, fragment@, text);
        }
        let ghost piece = fragment@;
        self.ropes.push_fragment(&fragment, was_visible);
        self.fragments.push(fragment);
        proof {
            assert(pieces_of(self.fragments@) =~= before.pieces.push(piece));
            assert(self.built() =~= before.with(piece, text));
        }
    }

    /// Adds new text.
    pub fn push_insertion(&mut self, fragment: Fragment, text: &str)
        requires
            old(self).wf(),
            fragment.len == encode_utf8(text@).len(),
            fragment.len > 0,
            fragment.visible,
            old(self).built().cells().len() + fragment.len < usize::MAX,
        ensures
            final(self).wf(),
            forall|d: Doc, at: int| #[trigger] old(self).used(d, at) ==> final(self).used(d, at),
            final(self).built().cells() == old(self).built().cells() + run_cells(
                fragment@,
                encode_utf8(text@),
            ),
    {
        let ghost before = self.built();
        let ghost piece = fragment@;
        proof {
            lemma_cells_len(before, before.n());
            encode_utf8_valid_utf8(text@);
            lemma_with_wf(before, piece, encode_utf8(text@));
            lemma_cells_with(before, piece, encode_utf8(text@));
        }
        self.ropes.push_str(text);
        self.fragments.push(fragment);
        proof {
            assert(pieces_of(self.fragments@) =~= before.pieces.push(piece));
            assert(self.built() =~= before.with(piece, encode_utf8(text@)));
        }
    }

    /// The document built, once every cell has been used up.
    pub fn finish(self, Ghost(d): Ghost<Doc>) -> (parts: (Vec<Fragment>, Rope, Rope))
        requires
            self.wf(),
            d.wf(),
            self.used(d, d.cells().len() as int),
        ensures
            doc_of(parts.0@, parts.1@, parts.2@) == self.built(),
            parts.1.wf(),
            parts.2.wf(),
    {
        proof {
            lemma_cells_len(d, d.n());
            lemma_visible_rank(d, d.n(), 0);
        }
        let DocumentBuilder { ropes, fragments } = self;
        let ghost new_visible = ropes.new_visible@;
        let ghost new_deleted = ropes.new_deleted@;
        let (visible, deleted) = ropes.finish();
        proof {
            assert(d.visible.skip(d.visible.len() as int) =~= Seq::<u8>::empty());
            assert(d.deleted.skip(d.deleted.len() as int) =~= Seq::<u8>::empty());
            assert(visible@ =~= new_visible);
            assert(deleted@ =~= new_deleted);
        }
        (fragments, visible, deleted)
    }
}

} // verus!
