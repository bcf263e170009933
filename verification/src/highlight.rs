//! Text with how each part of it is highlighted.

use std::ops::Range;

use vstd::prelude::*;
use vstd::utf8::*;

use crate::content::ToOffset;
use crate::rope::{Bias, Rope, boundary_after, lemma_boundaries};
use crate::snapshot::Snapshot;
use crate::syntax::{
    Capture, HighlightId, HighlightMap, captures_in_bytes, highlight_of, no_highlight,
    query_captures,
};

verus! {

/// What is known of the captures of a highlighting query: those still to come,
/// the one that comes next if it has been looked at, and those that have begun,
/// each by where it ends and how it is highlighted.
pub struct Highlights {
    captures: Vec<Capture>,
    position: usize,
    from: usize,
    next_capture: Option<Capture>,
    stack: Vec<(usize, HighlightId)>,
    highlight_map: HighlightMap,
}

/// What `Highlights` means. Captures that end at or before `from` are passed
/// over.
#[verifier::ext_equal]
pub ghost struct HighlightsModel {
    pub captures: Seq<Capture>,
    pub from: int,
    pub next_capture: Option<Capture>,
    pub stack: Seq<(usize, HighlightId)>,
    pub ids: Seq<HighlightId>,
}

/// The first capture that ends after `from`, and what comes after it.
pub open spec fn first_capture_after(captures: Seq<Capture>, from: int) -> (
    Option<Capture>,
    Seq<Capture>,
)
    decreases captures.len(),
{
    if captures.len() == 0 {
        (None, captures)
    } else if captures[0].end_byte <= from {
        first_capture_after(captures.skip(1), from)
    } else {
        (Some(captures[0]), captures.skip(1))
    }
}

/// The highlights once the next capture has been looked at.
pub open spec fn capture_taken(h: HighlightsModel) -> HighlightsModel {
    let (next_capture, captures) = first_capture_after(h.captures, h.from);
    HighlightsModel { next_capture, captures, ..h }
}

/// The captures that have begun, without the last ones if they end at or before
/// an offset.
pub open spec fn without_ended(stack: Seq<(usize, HighlightId)>, offset: int) -> Seq<
    (usize, HighlightId),
>
    decreases stack.len(),
{
    if stack.len() > 0 && stack.last().0 <= offset {
        without_ended(stack.drop_last(), offset)
    } else {
        stack
    }
}

/// The captures that have begun, without those that end at or before an offset.
pub open spec fn ending_after(stack: Seq<(usize, HighlightId)>, offset: int) -> Seq<
    (usize, HighlightId),
>
    decreases stack.len(),
{
    if stack.len() == 0 {
        stack
    } else if stack.last().0 > offset {
        ending_after(stack.drop_last(), offset).push(stack.last())
    } else {
        ending_after(stack.drop_last(), offset)
    }
}

pub proof fn lemma_first_capture(captures: Seq<Capture>, from: int)
    ensures
        first_capture_after(captures, from).1.len() <= captures.len(),
        first_capture_after(captures, from).0 is Some ==> first_capture_after(
            captures,
            from,
        ).1.len() < captures.len(),
    decreases captures.len(),
{
    if captures.len() > 0 && captures[0].end_byte <= from {
        lemma_first_capture(captures.skip(1), from);
    }
}

/// How many captures are still to begin.
pub open spec fn to_begin(h: HighlightsModel) -> int {
    h.captures.len() + if h.next_capture is Some {
        1int
    } else {
        0
    }
}

/// The highlights once every capture that starts at or before an offset has
/// begun.
pub open spec fn begun(h: HighlightsModel, offset: int) -> HighlightsModel
    decreases to_begin(h),
{
    proof {
        lemma_first_capture(h.captures, h.from);
    }
    match h.next_capture {
        Some(capture) => if offset < capture.start_byte {
            h
        } else {
            let entry = (capture.end_byte, highlight_of(h.ids, capture.index));
            begun(
                capture_taken(HighlightsModel { stack: h.stack.push(entry), ..h }),
                offset,
            )
        },
        None => h,
    }
}

/// The highlights at an offset.
pub open spec fn highlights_at(h: HighlightsModel, offset: int) -> HighlightsModel {
    let rid = HighlightsModel { stack: without_ended(h.stack, offset), ..h };
    begun(
        if rid.next_capture is None {
            capture_taken(rid)
        } else {
            rid
        },
        offset,
    )
}

/// The highlights after a move to an offset.
pub open spec fn highlights_moved(h: HighlightsModel, offset: int) -> HighlightsModel {
    let kept = ending_after(h.stack, offset);
    match h.next_capture {
        Some(capture) => if offset >= capture.start_byte {
            HighlightsModel {
                stack: if offset < capture.end_byte {
                    kept.push((capture.end_byte, highlight_of(h.ids, capture.index)))
                } else {
                    kept
                },
                next_capture: None,
                from: offset,
                ..h
            }
        } else {
            HighlightsModel { stack: kept, from: offset, ..h }
        },
        None => HighlightsModel { stack: kept, from: offset, ..h },
    }
}

/// Highlighted text: the text, what is left of the range, and the highlights.
#[verifier::ext_equal]
pub ghost struct ChunksModel {
    pub text: Seq<u8>,
    pub start: int,
    pub end: int,
    pub highlights: Option<HighlightsModel>,
}

/// The smaller of two numbers.
pub open spec fn smaller(a: int, b: int) -> int {
    if a <= b {
        a
    } else {
        b
    }
}

/// How far the text from `start` on is highlighted in one way: up to the next
/// capture, the end of the innermost one that has begun, or the end of the
/// range, and on to the end of the character there.
pub open spec fn chunk_end(c: ChunksModel) -> int {
    let end = match c.highlights {
        Some(h) => {
            let before_next = match h.next_capture {
                Some(capture) => smaller(c.end, capture.start_byte as int),
                None => c.end,
            };
            if h.stack.len() > 0 {
                smaller(before_next, h.stack.last().0 as int)
            } else {
                before_next
            }
        },
        None => c.end,
    };
    if end <= c.start {
        c.start
    } else {
        smaller(c.end, boundary_after(c.text, end))
    }
}

/// How the text from `start` on is highlighted: as the innermost capture that
/// has begun.
pub open spec fn chunk_highlight(c: ChunksModel) -> HighlightId {
    match c.highlights {
        Some(h) => if h.stack.len() > 0 {
            h.stack.last().1
        } else {
            no_highlight()
        },
        None => no_highlight(),
    }
}

/// The text with its highlights looked at.
pub open spec fn chunks_ready(c: ChunksModel) -> ChunksModel {
    ChunksModel {
        highlights: match c.highlights {
            Some(h) => Some(highlights_at(h, c.start)),
            None => None,
        },
        ..c
    }
}

/// The text after the next part of it has been handed out.
pub open spec fn chunks_after(c: ChunksModel) -> ChunksModel {
    let ready = chunks_ready(c);
    if c.start < c.end {
        ChunksModel { start: chunk_end(ready), ..ready }
    } else {
        ready
    }
}

impl View for Highlights {
    type V = HighlightsModel;

    closed spec fn view(&self) -> HighlightsModel {
        HighlightsModel {
            captures: self.captures@.skip(self.position as int),
            from: self.from as int,
            next_capture: self.next_capture,
            stack: self.stack@,
            ids: self.highlight_map.ids@,
        }
    }
}

impl Highlights {
    pub closed spec fn wf(&self) -> bool {
        self.position <= self.captures@.len()
    }

    /// The highlights of a list of captures.
    pub fn new(captures: Vec<Capture>, from: usize, highlight_map: HighlightMap) -> (highlights:
        Highlights)
        ensures
            highlights.wf(),
            highlights@ == (HighlightsModel {
                captures: captures@,
                from: from as int,
                next_capture: None,
                stack: Seq::empty(),
                ids: highlight_map.ids@,
            }),
    {
        assert(captures@.skip(0) =~= captures@);
        Highlights {
            captures,
            position: 0,
            from,
            next_capture: None,
            stack: Vec::new(),
            highlight_map,
        }
    }

    fn take_capture(&mut self)
        requires
            old(self).wf(),
        ensures
            final(self).wf(),
            final(self)@ == capture_taken(old(self)@),
    {
        let ghost start = self@;
        while self.position < self.captures.len() && self.captures[self.position].end_byte
            <= self.from
            invariant
                self.position <= self.captures@.len(),
                start == old(self)@,
                self@ == (HighlightsModel { captures: self@.captures, ..start }),
                first_capture_after(self@.captures, start.from) == first_capture_after(
                    start.captures,
                    start.from,
                ),
            decreases self.captures@.len() - self.position,
        {
            let ghost before = self@;
            self.position = self.position + 1;
            proof {
                assert(self@.captures =~= before.captures.skip(1));
            }
        }
        let ghost before = self@;
        if self.position < self.captures.len() {
            let capture = self.captures[self.position];
            self.next_capture = Some(capture);
            self.position = self.position + 1;
            assert(self@.captures =~= before.captures.skip(1));
        } else {
            self.next_capture = None;
            assert(self@.captures =~= before.captures);
        }
    }

    fn seek(&mut self, offset: usize)
        requires
            old(self).wf(),
        ensures
            final(self).wf(),
            final(self)@ == highlights_moved(old(self)@, offset as int),
    {
        let ghost start = self@;
        let mut stack: Vec<(usize, HighlightId)> = Vec::new();
        let mut i: usize = 0;
        assert(self.stack@.take(0) =~= Seq::empty());
        while i < self.stack.len()
            invariant
                self.wf(),
                i <= self.stack@.len(),
                stack@ == ending_after(self.stack@.take(i as int), offset as int),
                self@ == start,
            decreases self.stack@.len() - i,
        {
            let entry = self.stack[i];
            proof {
                assert(self.stack@.take(i + 1).drop_last() =~= self.stack@.take(i as int));
            }
            if entry.0 > offset {
                stack.push(entry);
            }
            i = i + 1;
        }
        assert(self.stack@.take(i as int) =~= self.stack@);
        match self.next_capture {
            Some(capture) => {
                if offset >= capture.start_byte {
                    if offset < capture.end_byte {
                        stack.push((capture.end_byte, self.highlight_map.get(capture.index)));
                    }
                    self.next_capture = None;
                }
            },
            None => {},
        }
        self.stack = stack;
        self.from = offset;
    }

    /// Brings the highlights to an offset.
    fn advance(&mut self, offset: usize)
        requires
            old(self).wf(),
        ensures
            final(self).wf(),
            final(self)@ == highlights_at(old(self)@, offset as int),
    {
        let ghost start = self@;
        while self.stack.len() > 0 && self.stack[self.stack.len() - 1].0 <= offset
            invariant
                self.wf(),
                start == old(self)@,
                self@ == (HighlightsModel { stack: self@.stack, ..start }),
                without_ended(self@.stack, offset as int) == without_ended(
                    start.stack,
                    offset as int,
                ),
            decreases self.stack@.len(),
        {
            let ghost before = self@;
            let _ = self.stack.pop();
            assert(self@.stack =~= before.stack.drop_last());
        }
        if self.next_capture.is_none() {
            self.take_capture();
        }
        let ghost ready = self@;
        assert(begun(ready, offset as int) == highlights_at(start, offset as int));
        let mut done = false;
        while !done
            invariant
                self.wf(),
                begun(self@, offset as int) == begun(ready, offset as int),
                done ==> self@ == begun(self@, offset as int),
            decreases to_begin(self@), if done { 0int } else { 1 },
        {
            let ghost before = self@;
            match self.next_capture {
                Some(capture) => {
                    if offset < capture.start_byte {
                        done = true;
                    } else {
                        proof {
                            lemma_first_capture(before.captures, before.from);
                        }
                        let id = self.highlight_map.get(capture.index);
                        self.stack.push((capture.end_byte, id));
                        self.take_capture();
                    }
                },
                None => {
                    done = true;
                },
            }
        }
    }
}

/// Highlighted text, in parts.
pub struct HighlightedChunks<'a> {
    text: &'a Rope,
    range: Range<usize>,
    highlights: Option<Highlights>,
}

impl<'a> View for HighlightedChunks<'a> {
    type V = ChunksModel;

    closed spec fn view(&self) -> ChunksModel {
        ChunksModel {
            text: self.text@,
            start: self.range.start as int,
            end: self.range.end as int,
            highlights: match self.highlights {
                Some(highlights) => Some(highlights@),
                None => None,
            },
        }
    }
}

/// The range lies in the text and between characters.
pub open spec fn chunks_fit(c: ChunksModel) -> bool {
    &&& valid_utf8(c.text)
    &&& 0 <= c.start <= c.end <= c.text.len()
    &&& is_char_boundary(c.text, c.start)
    &&& is_char_boundary(c.text, c.end)
}

impl<'a> HighlightedChunks<'a> {
    pub closed spec fn wf(&self) -> bool {
        &&& chunks_fit(self@)
        &&& self.text.wf()
        &&& match self.highlights {
            Some(highlights) => highlights.wf(),
            None => true,
        }
    }

    /// Moves to an offset: what is handed out from here on starts there.
    pub fn seek(&mut self, offset: usize)
        requires
            old(self).wf(),
            offset <= old(self)@.end,
            is_char_boundary(old(self)@.text, offset as int),
        ensures
            final(self).wf(),
            final(self)@ == (ChunksModel {
                start: offset as int,
                highlights: match old(self)@.highlights {
                    Some(h) => Some(highlights_moved(h, offset as int)),
                    None => None,
                },
                ..old(self)@
            }),
    {
        self.range.start = offset;
        match &mut self.highlights {
            Some(highlights) => highlights.seek(offset),
            None => {},
        }
    }

    /// Where what comes next starts.
    pub fn offset(&self) -> (offset: usize)
        ensures
            offset == self@.start,
    {
        self.range.start
    }

    /// Hands out the next part of the text that is highlighted in one way, and
    /// how it is highlighted.
    pub fn next(&mut self) -> (chunk: Option<(String, HighlightId)>)
        requires
            old(self).wf(),
        ensures
            final(self).wf(),
            final(self)@ == chunks_after(old(self)@),
            match chunk {
                Some(chunk) => {
                    let ready = chunks_ready(old(self)@);
                    &&& ready.start < ready.end
                    &&& encode_utf8(chunk.0@) == ready.text.subrange(ready.start, chunk_end(ready))
                    &&& chunk.1 == chunk_highlight(ready)
                    &&& final(self)@.start == old(self)@.start + encode_utf8(chunk.0@).len()
                },
                None => old(self)@.start >= old(self)@.end,
            },
    {
        let ghost before = self@;
        let start = self.range.start;
        let mut end = self.range.end;
        let mut id = HighlightId(u32::MAX);
        match &mut self.highlights {
            Some(highlights) => {
                highlights.advance(start);
                match highlights.next_capture {
                    Some(capture) => {
                        if capture.start_byte < end {
                            end = capture.start_byte;
                        }
                    },
                    None => {},
                }
                if highlights.stack.len() > 0 {
                    let innermost = highlights.stack[highlights.stack.len() - 1];
                    if innermost.0 < end {
                        end = innermost.0;
                    }
                    id = innermost.1;
                }
            },
            None => {},
        }
        let ghost ready = chunks_ready(before);
        assert(self@ == ready);
        if start >= self.range.end {
            return None;
        }
        if end <= start {
            end = start;
        } else {
            end = self.text.clip_offset(end, Bias::Right);
            if end > self.range.end {
                end = self.range.end;
            }
        }
        assert(end == chunk_end(ready));
        assert(start <= end) by {
            lemma_boundaries(ready.text, smaller(ready.end, end as int));
            lemma_chunk_end(ready);
        }
        let text = self.text.text_in(start, end);
        self.range.start = end;
        Some((text, id))
    }
}

/// A part of the text does not end before it starts, nor past the range.
pub proof fn lemma_chunk_end(c: ChunksModel)
    requires
        chunks_fit(c),
    ensures
        c.start <= chunk_end(c) <= c.end,
        is_char_boundary(c.text, chunk_end(c)),
{
    let end = match c.highlights {
        Some(h) => {
            let before_next = match h.next_capture {
                Some(capture) => smaller(c.end, capture.start_byte as int),
                None => c.end,
            };
            if h.stack.len() > 0 {
                smaller(before_next, h.stack.last().0 as int)
            } else {
                before_next
            }
        },
        None => c.end,
    };
    if end > c.start {
        lemma_boundaries(c.text, end);
    }
}

/// The text after `n` parts of it have been handed out.
pub open spec fn chunks_after_parts(c: ChunksModel, n: nat) -> ChunksModel
    decreases n,
{
    if n == 0 {
        c
    } else {
        chunks_after_parts(chunks_after(c), (n - 1) as nat)
    }
}

/// The first `n` parts, one after the other.
pub open spec fn parts(c: ChunksModel, n: nat) -> Seq<u8>
    decreases n,
{
    if n == 0 {
        Seq::empty()
    } else if c.start < c.end {
        c.text.subrange(c.start, chunk_end(chunks_ready(c))) + parts(
            chunks_after(c),
            (n - 1) as nat,
        )
    } else {
        parts(chunks_after(c), (n - 1) as nat)
    }
}

/// The parts follow each other in the text: nothing is left out, and nothing
/// comes twice.
pub proof fn law_parts_follow_each_other(c: ChunksModel, n: nat)
    requires
        chunks_fit(c),
    ensures
        c.start <= chunks_after_parts(c, n).start <= c.end,
        parts(c, n) == c.text.subrange(c.start, chunks_after_parts(c, n).start),
    decreases n,
{
    if n > 0 {
        let next = chunks_after(c);
        lemma_chunk_end(chunks_ready(c));
        law_parts_follow_each_other(next, (n - 1) as nat);
        let stop = chunks_after_parts(c, n).start;
        assert(c.text.subrange(c.start, next.start) + c.text.subrange(next.start, stop)
            =~= c.text.subrange(c.start, stop));
    }
}

/// Text without highlights comes in one part, and that is not highlighted.
pub proof fn law_plain_text_is_one_part(c: ChunksModel)
    requires
        chunks_fit(c),
        c.highlights is None,
        c.start < c.end,
    ensures
        chunk_highlight(chunks_ready(c)) == no_highlight(),
        chunk_end(chunks_ready(c)) == c.end,
        parts(c, 1) == c.text.subrange(c.start, c.end),
        chunks_after(c).highlights is None,
{
    lemma_boundaries(c.text, c.end);
    reveal_with_fuel(parts, 2);
    assert(c.text.subrange(c.start, c.end) + Seq::<u8>::empty() =~= c.text.subrange(
        c.start,
        c.end,
    ));
}

/// How many captures are still to begin or to end.
pub open spec fn captures_left(c: ChunksModel) -> int {
    match c.highlights {
        Some(h) => 2 * to_begin(h) + h.stack.len(),
        None => 0,
    }
}

proof fn lemma_without_ended(stack: Seq<(usize, HighlightId)>, offset: int)
    ensures
        without_ended(stack, offset).len() <= stack.len(),
        without_ended(stack, offset).len() > 0 ==> without_ended(stack, offset).last().0 > offset,
    decreases stack.len(),
{
    if stack.len() > 0 && stack.last().0 <= offset {
        lemma_without_ended(stack.drop_last(), offset);
    }
}

/// Beginning captures uses them up.
proof fn lemma_begun(h: HighlightsModel, offset: int)
    ensures
        2 * to_begin(begun(h, offset)) + begun(h, offset).stack.len() <= 2 * to_begin(h)
            + h.stack.len(),
        begun(h, offset) == h || 2 * to_begin(begun(h, offset)) + begun(h, offset).stack.len() < 2
            * to_begin(h) + h.stack.len(),
        begun(h, offset).next_capture is Some ==> begun(h, offset).next_capture->0.start_byte
            > offset,
    decreases to_begin(h),
{
    lemma_first_capture(h.captures, h.from);
    match h.next_capture {
        Some(capture) => if offset >= capture.start_byte {
            let entry = (capture.end_byte, highlight_of(h.ids, capture.index));
            lemma_begun(
                capture_taken(HighlightsModel { stack: h.stack.push(entry), ..h }),
                offset,
            );
        },
        None => {},
    }
}

/// Handing out a part goes on in the text, or uses up a capture.
proof fn lemma_progress(c: ChunksModel)
    requires
        chunks_fit(c),
        c.start < c.end,
    ensures
        chunks_after(c).start > c.start || captures_left(chunks_after(c)) < captures_left(c),
{
    let ready = chunks_ready(c);
    lemma_chunk_end(ready);
    match c.highlights {
        Some(h) => {
            let rid = HighlightsModel { stack: without_ended(h.stack, c.start), ..h };
            lemma_without_ended(h.stack, c.start);
            let taken = if rid.next_capture is None {
                capture_taken(rid)
            } else {
                rid
            };
            lemma_first_capture(rid.captures, rid.from);
            lemma_begun(taken, c.start);
            let at = highlights_at(h, c.start);
            if at == taken {
                let before_next = match at.next_capture {
                    Some(capture) => smaller(c.end, capture.start_byte as int),
                    None => c.end,
                };
                let end = if at.stack.len() > 0 {
                    smaller(before_next, at.stack.last().0 as int)
                } else {
                    before_next
                };
                assert(end > c.start);
                lemma_boundaries(c.text, end);
            }
        },
        None => {
            lemma_boundaries(c.text, c.end);
        },
    }
}

/// The parts come to an end, and together they are the text of the range.
pub proof fn law_parts_make_up_the_text(c: ChunksModel)
    requires
        chunks_fit(c),
    ensures
        exists|n: nat|
            parts(c, n) == c.text.subrange(c.start, c.end) && #[trigger] chunks_after_parts(
                c,
                n,
            ).start == c.end,
    decreases c.end - c.start, captures_left(c),
{
    if c.start < c.end {
        let next = chunks_after(c);
        lemma_progress(c);
        lemma_chunk_end(chunks_ready(c));
        law_parts_make_up_the_text(next);
        let n = choose|n: nat|
            parts(next, n) == next.text.subrange(next.start, next.end)
                && #[trigger] chunks_after_parts(next, n).start == next.end;
        assert(chunks_after_parts(c, n + 1) == chunks_after_parts(next, n));
        law_parts_follow_each_other(c, n + 1);
    } else {
        assert(chunks_after_parts(c, 0).start == c.end);
        assert(parts(c, 0) =~= c.text.subrange(c.start, c.end));
    }
}

impl Snapshot {
    /// The text of a range, with how each part of it is highlighted.
    pub fn highlighted_text_for_range<T: ToOffset>(&self, range: Range<T>) -> (chunks:
        HighlightedChunks<'_>)
        requires
            self.wf(),
            range.start.names_place(self@.cells),
            range.end.names_place(self@.cells),
            range.start.offset_in(self@.cells) <= range.end.offset_in(self@.cells)
                <= self@.text.len(),
            is_char_boundary(self@.text, range.start.offset_in(self@.cells)),
            is_char_boundary(self@.text, range.end.offset_in(self@.cells)),
        ensures
            chunks.wf(),
            ({
                let start = range.start.offset_in(self@.cells);
                let end = range.end.offset_in(self@.cells);
                chunks@ == (ChunksModel {
                    text: self@.text,
                    start,
                    end,
                    highlights: match (self@.language, self@.tree) {
                        (Some(language), Some(tree)) => Some(
                            HighlightsModel {
                                captures: captures_in_bytes(
                                    language.highlights_query,
                                    tree,
                                    self@.text,
                                    start as usize,
                                    end as usize,
                                ),
                                from: start,
                                next_capture: None,
                                stack: Seq::empty(),
                                ids: language.highlight_map.ids@,
                            },
                        ),
                        _ => None,
                    },
                })
            }),
    {
        let content = self.content();
        let start = range.start.to_offset(&content);
        let end = range.end.to_offset(&content);
        let highlights = match (&self.language, &self.tree) {
            (Some(language), Some(tree)) => {
                let captures = query_captures(
                    &language.highlights_query,
                    tree,
                    self.visible_text.as_bytes(),
                    start,
                    end,
                );
                Some(Highlights::new(captures, start, language.highlight_map()))
            },
            _ => None,
        };
        HighlightedChunks { text: &self.visible_text, range: start..end, highlights }
    }
}

} // verus!
