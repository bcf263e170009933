//! How the parts of a text are highlighted: as the innermost of the nodes around
//! them.

use vstd::prelude::*;
use vstd::utf8::*;

use crate::highlight::{
    ChunksModel, HighlightsModel, begun, capture_taken, chunk_end, chunk_highlight, chunks_after,
    chunks_fit, chunks_ready, ending_after, highlights_at, highlights_moved, lemma_chunk_end,
    lemma_first_capture, to_begin, without_ended,
};
use crate::rope::{boundary_after, lemma_boundaries};
use crate::syntax::{Capture, HighlightId, highlight_of, no_highlight};
use crate::text_laws::law_clipped_right;

verus! {

/// The capture at `k` lies around an offset.
pub open spec fn around(all: Seq<Capture>, k: int, offset: int) -> bool {
    0 <= k < all.len() && all[k].start_byte <= offset < all[k].end_byte
}

/// The capture at `k` lies around an offset, and no later one does.
pub open spec fn innermost_at(all: Seq<Capture>, k: int, offset: int) -> bool {
    around(all, k, offset) && forall|j: int| k < j ==> !#[trigger] around(all, j, offset)
}

/// No capture lies around an offset.
pub open spec fn bare_at(all: Seq<Capture>, offset: int) -> bool {
    forall|j: int| !#[trigger] around(all, j, offset)
}

/// An offset is highlighted the way it should be: as the last of the captures
/// around it, in the order of their starts, says; in no way if there is none.
pub open spec fn highlighted_as(
    all: Seq<Capture>,
    ids: Seq<HighlightId>,
    offset: int,
    id: HighlightId,
) -> bool {
    if bare_at(all, offset) {
        id == HighlightId(u32::MAX)
    } else {
        exists|k: int|
            #[trigger] innermost_at(all, k, offset) && if 0 <= all[k].index < ids.len() {
                id == ids[all[k].index as int]
            } else {
                id == HighlightId(u32::MAX)
            }
    }
}

/// The captures are in the order of their starts.
pub open spec fn sorted(all: Seq<Capture>) -> bool {
    forall|i: int, j: int|
        0 <= i < j < all.len() ==> (#[trigger] all[i]).start_byte <= (#[trigger] all[j]).start_byte
}

/// Where highlights stand: the first `m` captures have been taken, all of them but
/// for the one that comes next have begun, `at` tells which of them are on the
/// stack, and the others end at or before an offset.
pub open spec fn stands_at(
    h: HighlightsModel,
    all: Seq<Capture>,
    ids: Seq<HighlightId>,
    offset: int,
    m: int,
    at: Seq<int>,
) -> bool {
    let b = begun_of(h, m);
    &&& 0 <= m <= all.len()
    &&& h.ids == ids
    &&& h.captures == all.skip(m)
    &&& h.next_capture matches Some(capture) ==> m > 0 && capture == all[m - 1]
    &&& h.from <= offset
    &&& at.len() == h.stack.len()
    &&& forall|i: int|
        0 <= i < at.len() ==> 0 <= #[trigger] at[i] < b && h.stack[i] == (
            all[at[i]].end_byte,
            highlight_of(ids, all[at[i]].index),
        ) && all[at[i]].start_byte <= offset
    &&& forall|i: int, j: int| 0 <= i < j < at.len() ==> #[trigger] at[i] < #[trigger] at[j]
    &&& forall|k: int|
        0 <= k < b && !at.contains(k) ==> (#[trigger] all[k]).end_byte <= offset
}

/// How many captures have begun.
pub open spec fn begun_of(h: HighlightsModel, m: int) -> int {
    if h.next_capture is Some {
        m - 1
    } else {
        m
    }
}

/// The highlights of a text, as far as they have been looked at, are those of some
/// captures.
pub open spec fn reads(
    c: ChunksModel,
    all: Seq<Capture>,
    ids: Seq<HighlightId>,
    offset: int,
) -> bool {
    &&& c.highlights is Some
    &&& offset <= c.start
    &&& exists|m: int, at: Seq<int>| #[trigger]
        stands_at(c.highlights->0, all, ids, offset, m, at)
}

/// Highlights to which nothing has been done read from their captures.
pub proof fn law_new_highlights_read(c: ChunksModel, all: Seq<Capture>, ids: Seq<HighlightId>)
    requires
        c.highlights == Some(
            HighlightsModel {
                captures: all,
                from: c.start,
                next_capture: None,
                stack: Seq::empty(),
                ids,
            },
        ),
    ensures
        reads(c, all, ids, c.start),
{
    let h = c.highlights->0;
    let at = Seq::<int>::empty();
    assert(all.skip(0) =~= all);
    assert(stands_at(h, all, ids, c.start, 0, at));
}

/// What has ended by one offset has ended by a later one.
proof fn lemma_later(
    h: HighlightsModel,
    all: Seq<Capture>,
    ids: Seq<HighlightId>,
    offset: int,
    later: int,
    m: int,
    at: Seq<int>,
)
    requires
        stands_at(h, all, ids, offset, m, at),
        offset <= later,
    ensures
        stands_at(h, all, ids, later, m, at),
{
}

/// The captures at the top that have ended are taken off.
proof fn lemma_rid(
    h: HighlightsModel,
    all: Seq<Capture>,
    ids: Seq<HighlightId>,
    offset: int,
    m: int,
    at: Seq<int>,
) -> (now: Seq<int>)
    requires
        stands_at(h, all, ids, offset, m, at),
    ensures
        stands_at(
            HighlightsModel { stack: without_ended(h.stack, offset), ..h },
            all,
            ids,
            offset,
            m,
            now,
        ),
        without_ended(h.stack, offset).len() > 0 ==> without_ended(h.stack, offset).last().0
            > offset,
    decreases h.stack.len(),
{
    if h.stack.len() > 0 && h.stack.last().0 <= offset {
        let less = HighlightsModel { stack: h.stack.drop_last(), ..h };
        let rest = at.drop_last();
        let n = at.len() as int;
        assert(at[n - 1] < begun_of(h, m));
        assert forall|k: int| 0 <= k < begun_of(h, m) && !rest.contains(k) implies (
        #[trigger] all[k]).end_byte <= offset by {
            if at.contains(k) {
                let i = at.index_of(k);
                if i < n - 1 {
                    assert(rest[i] == k);
                }
            }
        }
        assert(stands_at(less, all, ids, offset, m, rest));
        lemma_rid(less, all, ids, offset, m, rest)
    } else {
        at
    }
}

/// Captures that have ended are passed over; the next one is looked at.
proof fn lemma_taken(
    h: HighlightsModel,
    all: Seq<Capture>,
    ids: Seq<HighlightId>,
    offset: int,
    m: int,
    at: Seq<int>,
) -> (now: int)
    requires
        stands_at(h, all, ids, offset, m, at),
        h.next_capture is None,
    ensures
        stands_at(capture_taken(h), all, ids, offset, now, at),
        capture_taken(h).next_capture is None ==> now == all.len(),
    decreases all.len() - m,
{
    if m < all.len() {
        assert(h.captures[0] == all[m]);
        assert(h.captures.skip(1) =~= all.skip(m + 1));
        if h.captures[0].end_byte <= h.from {
            let next = HighlightsModel { captures: h.captures.skip(1), ..h };
            assert(stands_at(next, all, ids, offset, m + 1, at));
            lemma_taken(next, all, ids, offset, m + 1, at)
        } else {
            let next = capture_taken(h);
            assert(stands_at(next, all, ids, offset, m + 1, at));
            m + 1
        }
    } else {
        m
    }
}

/// Captures begin.
proof fn lemma_begin(
    h: HighlightsModel,
    all: Seq<Capture>,
    ids: Seq<HighlightId>,
    offset: int,
    m: int,
    at: Seq<int>,
) -> (now: (int, Seq<int>))
    requires
        stands_at(h, all, ids, offset, m, at),
        h.next_capture is None ==> m == all.len(),
    ensures
        ({
            let end = begun(h, offset);
            &&& stands_at(end, all, ids, offset, now.0, now.1)
            &&& end.next_capture is None ==> now.0 == all.len()
            &&& end.next_capture matches Some(capture) ==> capture.start_byte > offset
        }),
    decreases to_begin(h),
{
    lemma_first_capture(h.captures, h.from);
    match h.next_capture {
        Some(capture) => if offset < capture.start_byte {
            (m, at)
        } else {
            let entry = (capture.end_byte, highlight_of(h.ids, capture.index));
            let pushed = HighlightsModel {
                stack: h.stack.push(entry),
                next_capture: None,
                ..h
            };
            let with_one = at.push(m - 1);
            assert forall|k: int| 0 <= k < m && !with_one.contains(k) implies (
            #[trigger] all[k]).end_byte <= offset by {
                assert(with_one[at.len() as int] == m - 1);
                if at.contains(k) {
                    let i = at.index_of(k);
                    assert(with_one[i] == k);
                }
            }
            assert(stands_at(pushed, all, ids, offset, m, with_one));
            let now = lemma_taken(pushed, all, ids, offset, m, with_one);
            let next = capture_taken(HighlightsModel { stack: h.stack.push(entry), ..h });
            assert(next == capture_taken(pushed));
            lemma_begin(next, all, ids, offset, now, with_one)
        },
        None => (m, at),
    }
}

/// Where highlights stand once they have been brought to an offset.
proof fn lemma_ready(
    h: HighlightsModel,
    all: Seq<Capture>,
    ids: Seq<HighlightId>,
    offset: int,
    m: int,
    at: Seq<int>,
) -> (now: (int, Seq<int>))
    requires
        stands_at(h, all, ids, offset, m, at),
    ensures
        ({
            let end = highlights_at(h, offset);
            &&& stands_at(end, all, ids, offset, now.0, now.1)
            &&& end.next_capture is None ==> now.0 == all.len()
            &&& end.next_capture matches Some(capture) ==> capture.start_byte > offset
        }),
{
    let rid = HighlightsModel { stack: without_ended(h.stack, offset), ..h };
    let kept = lemma_rid(h, all, ids, offset, m, at);
    if rid.next_capture is None {
        let now = lemma_taken(rid, all, ids, offset, m, kept);
        lemma_begin(capture_taken(rid), all, ids, offset, now, kept)
    } else {
        lemma_begin(rid, all, ids, offset, m, kept)
    }
}

/// What lies around an offset of a part is what lies around its start.
proof fn lemma_part(
    h: HighlightsModel,
    all: Seq<Capture>,
    ids: Seq<HighlightId>,
    start: int,
    m: int,
    at: Seq<int>,
    x: int,
)
    requires
        stands_at(h, all, ids, start, m, at),
        sorted(all),
        h.next_capture is None ==> m == all.len(),
        h.next_capture matches Some(capture) ==> x < capture.start_byte,
        h.stack.len() > 0 ==> x < h.stack.last().0,
        start <= x,
    ensures
        highlighted_as(
            all,
            ids,
            x,
            if h.stack.len() > 0 {
                h.stack.last().1
            } else {
                no_highlight()
            },
        ),
{
    let b = begun_of(h, m);
    let n = at.len() as int;
    assert forall|j: int| b <= j implies !#[trigger] around(all, j, x) by {
        if j < all.len() {
            assert(all[m - 1].start_byte <= all[j].start_byte) by {
                if j > m - 1 {
                    assert(all[m - 1].start_byte <= all[j].start_byte);
                }
            }
        }
    }
    if n > 0 {
        let k = at[n - 1];
        assert(h.stack[n - 1] == h.stack.last());
        assert(all[at[n - 1]].start_byte <= start);
        assert forall|j: int| k < j implies !#[trigger] around(all, j, x) by {
            if j < b {
                if at.contains(j) {
                    let i = at.index_of(j);
                    if i < n - 1 {
                        assert(at[i] < at[n - 1]);
                    }
                }
                assert(all[j].end_byte <= start);
            }
        }
        assert(around(all, k, x));
        assert(innermost_at(all, k, x));
        assert(!bare_at(all, x));
    } else {
        assert forall|j: int| !#[trigger] around(all, j, x) by {
            if 0 <= j < b {
                assert(!at.contains(j));
                assert(all[j].end_byte <= start);
            }
        }
    }
}

/// Each part of a text is highlighted as the innermost of the captures around it,
/// that is, the last of them in the order of their starts, and in no way if there
/// is none. This holds where the part starts, and, where captures start and end
/// between characters, of every byte of it.
pub proof fn law_innermost_capture_wins(
    c: ChunksModel,
    all: Seq<Capture>,
    ids: Seq<HighlightId>,
    offset: int,
)
    requires
        chunks_fit(c),
        reads(c, all, ids, offset),
        sorted(all),
        c.start < c.end,
    ensures
        ({
            let ready = chunks_ready(c);
            let id = chunk_highlight(ready);
            let end = chunk_end(ready);
            &&& end > c.start ==> highlighted_as(all, ids, c.start, id)
            &&& between_characters(all, c.text) ==> forall|x: int|
                c.start <= x < end ==> #[trigger] highlighted_as(all, ids, x, id)
        }),
{
    let h = c.highlights->0;
    let (m, at) = choose|m: int, at: Seq<int>| #[trigger] stands_at(h, all, ids, offset, m, at);
    lemma_later(h, all, ids, offset, c.start, m, at);
    let (now, on) = lemma_ready(h, all, ids, c.start, m, at);
    let ready = chunks_ready(c);
    let end_state = highlights_at(h, c.start);
    let end = chunk_end(ready);
    let stop = stop_of(ready);
    lemma_chunk_end(ready);
    if stop > c.start {
        lemma_boundaries(c.text, stop);
        assert(end_state.stack.len() > 0 ==> c.start < end_state.stack.last().0);
        lemma_part(end_state, all, ids, c.start, now, on, c.start);
    }
    if between_characters(all, c.text) {
        if stop > c.start {
            assert(end <= stop) by {
                lemma_stop(c, all, ids, end_state, now, on, stop);
            }
        }
        assert forall|x: int| c.start <= x < end implies #[trigger] highlighted_as(
            all,
            ids,
            x,
            chunk_highlight(ready),
        ) by {
            lemma_part(end_state, all, ids, c.start, now, on, x);
        }
    }
}

/// Where a part would end if characters did not matter.
pub open spec fn stop_of(c: ChunksModel) -> int {
    let h = c.highlights->0;
    let a = c.end;
    let b = match h.next_capture {
        Some(capture) => if capture.start_byte < a {
            capture.start_byte as int
        } else {
            a
        },
        None => a,
    };
    if h.stack.len() > 0 && h.stack.last().0 < b {
        h.stack.last().0 as int
    } else {
        b
    }
}

/// The captures start and end between characters.
pub open spec fn between_characters(all: Seq<Capture>, text: Seq<u8>) -> bool {
    forall|k: int|
        0 <= k < all.len() ==> (#[trigger] all[k]).end_byte <= text.len() && all[k].start_byte
            <= text.len() && is_char_boundary(text, all[k].start_byte as int)
            && is_char_boundary(text, all[k].end_byte as int)
}

proof fn lemma_stop(
    c: ChunksModel,
    all: Seq<Capture>,
    ids: Seq<HighlightId>,
    h: HighlightsModel,
    m: int,
    at: Seq<int>,
    stop: int,
)
    requires
        chunks_fit(c),
        stands_at(h, all, ids, c.start, m, at),
        between_characters(all, c.text),
        h == highlights_at(c.highlights->0, c.start),
        c.highlights is Some,
        stop == stop_of(chunks_ready(c)),
        stop > c.start,
    ensures
        chunk_end(chunks_ready(c)) <= stop,
{
    let n = at.len() as int;
    if h.next_capture is Some {
        assert(all[m - 1].start_byte <= c.text.len());
    }
    if n > 0 {
        assert(h.stack[n - 1].0 == all[at[n - 1]].end_byte);
    }
    assert(is_char_boundary(c.text, stop));
    assert(boundary_after(c.text, stop) == stop);
}

/// Handing out a part leaves highlights that read from the same captures.
pub proof fn law_reading_goes_on(
    c: ChunksModel,
    all: Seq<Capture>,
    ids: Seq<HighlightId>,
    offset: int,
)
    requires
        chunks_fit(c),
        reads(c, all, ids, offset),
    ensures
        reads(chunks_after(c), all, ids, c.start),
        chunks_after(c).start >= c.start,
{
    let h = c.highlights->0;
    let (m, at) = choose|m: int, at: Seq<int>| #[trigger] stands_at(h, all, ids, offset, m, at);
    lemma_later(h, all, ids, offset, c.start, m, at);
    let (now, on) = lemma_ready(h, all, ids, c.start, m, at);
    lemma_chunk_end(chunks_ready(c));
    let end = chunks_after(c).highlights->0;
    assert(stands_at(end, all, ids, c.start, now, on));
}

/// The captures that have not ended stay.
proof fn lemma_kept(
    h: HighlightsModel,
    all: Seq<Capture>,
    ids: Seq<HighlightId>,
    offset: int,
    b: int,
    at: Seq<int>,
) -> (now: Seq<int>)
    requires
        at.len() == h.stack.len(),
        forall|i: int|
            0 <= i < at.len() ==> 0 <= #[trigger] at[i] < b <= all.len() && h.stack[i] == (
                all[at[i]].end_byte,
                highlight_of(ids, all[at[i]].index),
            ) && all[at[i]].start_byte <= offset,
        forall|i: int, j: int| 0 <= i < j < at.len() ==> #[trigger] at[i] < #[trigger] at[j],
    ensures
        ({
            let kept = ending_after(h.stack, offset);
            &&& now.len() == kept.len()
            &&& forall|i: int|
                0 <= i < now.len() ==> 0 <= #[trigger] now[i] < b && kept[i] == (
                    all[now[i]].end_byte,
                    highlight_of(ids, all[now[i]].index),
                ) && all[now[i]].start_byte <= offset && at.contains(now[i])
            &&& forall|i: int, j: int|
                0 <= i < j < now.len() ==> #[trigger] now[i] < #[trigger] now[j]
            &&& forall|k: int|
                at.contains(k) && !now.contains(k) ==> (#[trigger] all[k]).end_byte <= offset
        }),
    decreases h.stack.len(),
{
    if at.len() == 0 {
        at
    } else {
        let n = at.len() as int;
        let less = HighlightsModel { stack: h.stack.drop_last(), ..h };
        let rest = at.drop_last();
        assert forall|i: int| 0 <= i < rest.len() implies 0 <= #[trigger] rest[i] < b
            <= all.len() && less.stack[i] == (
            all[rest[i]].end_byte,
            highlight_of(ids, all[rest[i]].index),
        ) && all[rest[i]].start_byte <= offset by {
            assert(rest[i] == at[i]);
        }
        let past = lemma_kept(less, all, ids, offset, b, rest);
        assert(at[n - 1] < b);
        assert(h.stack.last() == h.stack[n - 1]);
        let now = if h.stack.last().0 > offset {
            past.push(at[n - 1])
        } else {
            past
        };
        assert forall|i: int| 0 <= i < past.len() implies at.contains(#[trigger] past[i])
            && past[i] < at[n - 1] by {
            let j = rest.index_of(past[i]);
            assert(at[j] == past[i]);
            assert(at[j] < at[n - 1]);
        }
        assert forall|k: int| at.contains(k) && !now.contains(k) implies (
        #[trigger] all[k]).end_byte <= offset by {
            let i = at.index_of(k);
            if i < n - 1 {
                assert(rest[i] == k);
                assert(rest.contains(k));
                if past.contains(k) {
                    let j = past.index_of(k);
                    assert(now[j] == k);
                }
            } else if h.stack.last().0 > offset {
                assert(now[past.len() as int] == k);
            }
        }
        assert forall|i: int| 0 <= i < now.len() implies 0 <= #[trigger] now[i] < b
            && ending_after(h.stack, offset)[i] == (
            all[now[i]].end_byte,
            highlight_of(ids, all[now[i]].index),
        ) && all[now[i]].start_byte <= offset && at.contains(now[i]) by {
            if i < past.len() {
                assert(now[i] == past[i]);
            } else {
                assert(at[n - 1] == now[i]);
            }
        }
        assert forall|i: int, j: int| 0 <= i < j < now.len() implies #[trigger] now[i]
            < #[trigger] now[j] by {
            if j < past.len() {
                assert(past[i] < past[j]);
            } else {
                assert(past[i] < at[n - 1]);
            }
        }
        now
    }
}

/// A move on in the text leaves highlights that read from the same captures.
pub proof fn law_seeking_reads_on(
    c: ChunksModel,
    all: Seq<Capture>,
    ids: Seq<HighlightId>,
    offset: int,
    to: int,
)
    requires
        reads(c, all, ids, offset),
        offset <= to,
    ensures
        reads(
            ChunksModel {
                start: to,
                highlights: Some(highlights_moved(c.highlights->0, to)),
                ..c
            },
            all,
            ids,
            to,
        ),
{
    let h = c.highlights->0;
    let (m, at) = choose|m: int, at: Seq<int>| #[trigger] stands_at(h, all, ids, offset, m, at);
    let b = begun_of(h, m);
    let kept = lemma_kept(h, all, ids, to, b, at);
    let next = highlights_moved(h, to);
    let moved = ChunksModel { start: to, highlights: Some(next), ..c };
    assert(moved.highlights->0 == next);
    assert forall|k: int| 0 <= k < b && !kept.contains(k) implies (#[trigger] all[k]).end_byte
        <= to by {}
    match h.next_capture {
        Some(capture) => {
            if to >= capture.start_byte && to < capture.end_byte {
                let now = kept.push(m - 1);
                assert forall|k: int| 0 <= k < m && !now.contains(k) implies (
                #[trigger] all[k]).end_byte <= to by {
                    assert(now[kept.len() as int] == m - 1);
                    if kept.contains(k) {
                        let i = kept.index_of(k);
                        assert(now[i] == k);
                    }
                }
                assert(stands_at(next, all, ids, to, m, now));
            } else if to >= capture.start_byte {
                assert forall|k: int| 0 <= k < m && !kept.contains(k) implies (
                #[trigger] all[k]).end_byte <= to by {}
                assert(stands_at(next, all, ids, to, m, kept));
            } else {
                assert(stands_at(next, all, ids, to, m, kept));
            }
        },
        None => {
            assert(stands_at(next, all, ids, to, m, kept));
        },
    }
}

/// If a capture lies within another one and nothing lies within it, its bytes are
/// highlighted its own way, not that of the one around it.
pub proof fn law_inner_capture_has_its_own_highlight(
    all: Seq<Capture>,
    ids: Seq<HighlightId>,
    outer: int,
    inner: int,
    x: int,
    id: HighlightId,
)
    requires
        0 <= outer < inner < all.len(),
        around(all, outer, x),
        around(all, inner, x),
        forall|j: int| inner < j ==> !#[trigger] around(all, j, x),
        all[inner].index < ids.len(),
        highlighted_as(all, ids, x, id),
    ensures
        id == ids[all[inner].index as int],
{
    let k = choose|k: int|
        #[trigger] innermost_at(all, k, x) && if 0 <= all[k].index < ids.len() {
            id == ids[all[k].index as int]
        } else {
            id == HighlightId(u32::MAX)
        };
    assert(!bare_at(all, x));
    if k < inner {
        assert(!around(all, inner, x));
    }
}

/// A part goes on until the next capture starts, the innermost one ends, or the range
/// does, whatever comes first, and then to the end of the character there.
pub proof fn law_part_goes_on(c: ChunksModel)
    requires
        chunks_fit(c),
        c.highlights is Some,
        stop_of(chunks_ready(c)) > c.start,
    ensures
        ({
            let stop = stop_of(chunks_ready(c));
            let end = chunk_end(chunks_ready(c));
            &&& is_char_boundary(c.text, end)
            &&& stop <= end <= c.end
            &&& forall|i: int| stop <= i < end ==> !#[trigger] is_char_boundary(c.text, i)
        }),
{
    let stop = stop_of(chunks_ready(c));
    lemma_chunk_end(chunks_ready(c));
    law_clipped_right(c.text, stop);
}

/// A move leaves the captures that end after the offset, in their order, and the next
/// one with them if the offset lies in it. The next one is looked for anew if it has
/// begun.
pub proof fn law_moved_highlights(h: HighlightsModel, offset: int)
    ensures
        ({
            let now = highlights_moved(h, offset);
            let kept = h.stack.filter(|e: (usize, HighlightId)| e.0 > offset);
            &&& now.from == offset
            &&& now.captures == h.captures
            &&& now.ids == h.ids
            &&& match h.next_capture {
                Some(capture) => {
                    &&& offset < capture.start_byte ==> now.next_capture == h.next_capture
                        && now.stack == kept
                    &&& offset >= capture.start_byte ==> now.next_capture is None
                    &&& capture.start_byte <= offset < capture.end_byte ==> now.stack.len()
                        == kept.len() + 1 && now.stack.drop_last() == kept && now.stack.last().0
                        == capture.end_byte
                    &&& offset >= capture.start_byte && offset >= capture.end_byte ==> now.stack
                        == kept
                },
                None => now.stack == kept && now.next_capture is None,
            }
        }),
{
    lemma_ending_after(h.stack, offset);
    let kept = ending_after(h.stack, offset);
    match h.next_capture {
        Some(capture) => {
            if capture.start_byte <= offset < capture.end_byte {
                assert(highlights_moved(h, offset).stack.drop_last() =~= kept);
            }
        },
        None => {},
    }
}

proof fn lemma_ending_after(stack: Seq<(usize, HighlightId)>, offset: int)
    ensures
        ending_after(stack, offset) == stack.filter(|e: (usize, HighlightId)| e.0 > offset),
    decreases stack.len(),
{
    reveal(Seq::filter);
    if stack.len() > 0 {
        lemma_ending_after(stack.drop_last(), offset);
    } else {
        assert(ending_after(stack, offset) =~= stack.filter(
            |e: (usize, HighlightId)| e.0 > offset,
        ));
    }
}

} // verus!
