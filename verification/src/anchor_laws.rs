//! Laws of anchors: they name a place, and keep it while the text around them
//! is edited.

use vstd::prelude::*;

use crate::clock::{Local, Version, observes};
use crate::content::{
    anchor_for, anchor_offset, anchor_place, lemma_seek_is, lemma_seen_at_is, seen_at, seen_at_from,
    visible_seek_from,
};
use crate::converge::{
    edit_done, gaps_of, high, laid_out, lemma_edited_laid, lemma_laid_at, lemma_new_text,
    lemma_once, lemma_places, lemma_rank_laid, lemma_seek_laid, low, marked, placed_in, text_at,
    unseen,
};
use crate::document::{Cell, all_seen, seen_rank, visible_rank};
use crate::edit_laws::lemma_all_seen;
use crate::fragment::{InsertionTimestamp, local_of};
use crate::local::lemma_visible_at;
use crate::operation::{AnchorModel, EditModel};
use crate::rope::Bias;
use crate::undo_map::UndoLog;
use crate::weave::{
    edited, in_ranges, inserted_cells, lemma_seek, local_at, local_plan, seek, touched, visible_at,
};

verus! {

proof fn lemma_visible_seek(cells: Seq<Cell>, offset: int, p: int)
    requires
        0 <= p <= cells.len(),
        0 <= offset <= visible_rank(cells, cells.len() as int),
        p > 0 ==> visible_rank(cells, p - 1) < offset,
    ensures
        p <= visible_seek_from(cells, offset, p) <= cells.len(),
        visible_rank(cells, visible_seek_from(cells, offset, p)) == offset,
    decreases cells.len() - p,
{
    if p < cells.len() && visible_rank(cells, p) < offset {
        lemma_visible_seek(cells, offset, p + 1);
    }
}

/// An anchor made for an offset of the text names that offset.
pub proof fn law_anchor_round_trip(cells: Seq<Cell>, v: Version, offset: int, bias: Bias)
    requires
        all_seen(cells, v),
        0 <= offset <= visible_rank(cells, cells.len() as int),
    ensures
        anchor_offset(cells, anchor_for(cells, v, offset, bias)) == offset,
{
    match bias {
        Bias::Left => {
            lemma_visible_seek(cells, offset, 0);
            let p = visible_seek_from(cells, offset, 0);
            lemma_all_seen(cells, v, p);
            if p > 0 {
                lemma_all_seen(cells, v, p - 1);
            }
            lemma_seek_is(cells, v, p, 0, p);
        },
        Bias::Right => {
            lemma_visible_at(cells, offset);
            let p = visible_at(cells, offset);
            lemma_all_seen(cells, v, p);
            if p < cells.len() {
                assert(observes(v, local_of(cells[p].timestamp)));
            }
            lemma_seen_at_is(cells, v, p, 0, p);
        },
    }
}

/// What `seen_at` finds.
proof fn lemma_seen_at(cells: Seq<Cell>, v: Version, offset: int, p: int)
    requires
        0 <= p <= cells.len(),
        seen_rank(cells, v, p) <= offset,
    ensures
        p <= seen_at_from(cells, v, offset, p) <= cells.len(),
        seen_rank(cells, v, seen_at_from(cells, v, offset, p)) <= offset,
        seen_at_from(cells, v, offset, p) < cells.len() ==> observes(
            v,
            local_of(cells[seen_at_from(cells, v, offset, p)].timestamp),
        ) && seen_rank(cells, v, seen_at_from(cells, v, offset, p)) >= offset,
    decreases cells.len() - p,
{
    if p < cells.len() && !(observes(v, local_of(cells[p].timestamp)) && seen_rank(cells, v, p)
        >= offset) {
        lemma_seen_at(cells, v, offset, p + 1);
    }
}

/// An anchor keeps its place when an edit comes that it has not seen: on the
/// left it stays right after the cell that it came after, and on the right it
/// stays right before the cell that it came before.
pub proof fn law_anchor_keeps_its_place(
    cells: Seq<Cell>,
    log: UndoLog,
    e: EditModel,
    anchor: AnchorModel,
)
    requires
        placed_in(cells, e),
        !observes(anchor.version, local_of(e.timestamp)),
        0 <= anchor.offset <= seen_rank(cells, anchor.version, cells.len() as int),
    ensures
        ({
            let after = edit_done(cells, log, e);
            let place = anchor_place(cells, anchor);
            let now = anchor_place(after, anchor);
            &&& 0 <= place <= cells.len()
            &&& 0 <= now <= after.len()
            &&& match anchor.bias {
                Bias::Left => if place == 0 {
                    now == 0
                } else {
                    now > 0 && after[now - 1] == marked(cells, log, e)[place - 1]
                },
                Bias::Right => if place == cells.len() {
                    now == after.len()
                } else {
                    now < after.len() && after[now] == marked(cells, log, e)[place]
                },
            }
        }),
{
    let m = marked(cells, log, e);
    let g = gaps_of(cells, log, e);
    let d = edit_done(cells, log, e);
    let v = anchor.version;
    lemma_places(cells, log, e);
    assert(unseen(g, v, m.len() as int));
    match anchor.bias {
        Bias::Left => {
            lemma_seek(cells, v, anchor.offset);
            lemma_seek_laid(cells, m, g, v, anchor.offset);
            let p = seek(cells, v, anchor.offset);
            lemma_laid_at(m, g, p);
            if p > 0 {
                lemma_laid_at(m, g, p - 1);
            }
        },
        Bias::Right => {
            lemma_seen_at(cells, v, anchor.offset, 0);
            let p = seen_at(cells, v, anchor.offset);
            lemma_rank_laid(cells, m, g, v, p);
            lemma_laid_at(m, g, p);
            let h = high(m, g, p);
            if p < cells.len() {
                assert(m[p].timestamp == cells[p].timestamp);
            }
            lemma_seen_at_is(d, v, anchor.offset, 0, h);
        },
    }
}

/// How much of the visible text is left before a place once a range of it has been
/// hidden.
proof fn lemma_rank_hidden(cells: Seq<Cell>, id: Local, a: int, b: int, i: int)
    requires
        0 <= i <= cells.len(),
        0 <= a <= b,
    ensures
        ({
            let r = visible_rank(cells, i);
            visible_rank(touched(cells, local_plan(cells, seq![(a, b)]), id), i) == if r <= a {
                r
            } else if r <= b {
                a
            } else {
                r - (b - a)
            }
        }),
    decreases i,
{
    let ranges = seq![(a, b)];
    let m = touched(cells, local_plan(cells, ranges), id);
    if i > 0 {
        lemma_rank_hidden(cells, id, a, b, i - 1);
        let x = visible_rank(cells, i - 1);
        assert(in_ranges(ranges, x) <==> a <= x < b) by {
            if a <= x < b {
                assert(ranges[0].0 <= x < ranges[0].1);
            }
        }
        assert(m[i - 1].visible == (cells[i - 1].visible && !(a <= x < b)));
    }
}

/// How much visible text comes before a place once text has been inserted.
proof fn lemma_rank_with_text(m: Seq<Cell>, at: int, text: Seq<Cell>, i: int)
    requires
        0 <= i <= m.len(),
        0 <= at,
        forall|j: int| 0 <= j < text.len() ==> (#[trigger] text[j]).visible,
    ensures
        ({
            let g = text_at(seq![at], text);
            let d = laid_out(m, g);
            &&& visible_rank(d, low(m, g, i)) == visible_rank(m, i) + if at < i {
                text.len() as int
            } else {
                0
            }
            &&& visible_rank(d, high(m, g, i)) == visible_rank(m, i) + if at <= i {
                text.len() as int
            } else {
                0
            }
        }),
    decreases i,
{
    let g = text_at(seq![at], text);
    let d = laid_out(m, g);
    lemma_laid_at(m, g, i);
    if i > 0 {
        lemma_rank_with_text(m, at, text, i - 1);
        lemma_laid_at(m, g, i - 1);
    }
    lemma_once(seq![at], text, i);
    assert(seq![at].contains(i) <==> i == at) by {
        assert(seq![at][0] == at);
    }
    let x = low(m, g, i);
    let n = g(i).len() as int;
    assert forall|j: int| x <= j < x + n implies (#[trigger] d[j]).visible by {
        assert(d.subrange(x, x + n)[j - x] == g(i)[j - x]);
        assert(text[j - x].visible);
    }
    lemma_visible_run(d, x, n);
}

proof fn lemma_visible_run(d: Seq<Cell>, x: int, n: int)
    requires
        0 <= x,
        0 <= n,
        x + n <= d.len(),
        forall|j: int| x <= j < x + n ==> (#[trigger] d[j]).visible,
    ensures
        visible_rank(d, x + n) == visible_rank(d, x) + n,
    decreases n,
{
    if n > 0 {
        lemma_visible_run(d, x, n - 1);
        assert(d[x + n - 1].visible);
    }
}

/// Where an anchor lies after the replica has replaced a range of its visible text. An
/// anchor before the range stays where it is. One within the range, or at its end,
/// lies after the new text. One past the range moves with what it stood next to. One
/// at the start of the range stays before the new text if it leans to the left, and
/// comes after it if it leans to the right.
pub proof fn law_anchor_moves_with_the_text(
    cells: Seq<Cell>,
    v: Version,
    offset: int,
    bias: Bias,
    a: int,
    b: int,
    timestamp: InsertionTimestamp,
    text: Seq<u8>,
)
    requires
        all_seen(cells, v),
        !observes(v, local_of(timestamp)),
        0 <= a <= b <= visible_rank(cells, cells.len() as int),
        0 <= offset <= visible_rank(cells, cells.len() as int),
    ensures
        ({
            let after = edited(cells, local_plan(cells, seq![(a, b)]), timestamp, text);
            let now = anchor_offset(after, anchor_for(cells, v, offset, bias));
            &&& offset < a ==> now == offset
            &&& offset == a && bias == Bias::Left ==> now == a
            &&& offset == a && bias == Bias::Right ==> now == a + text.len()
            &&& a < offset <= b ==> now == a + text.len()
            &&& offset > b ==> now == offset - (b - a) + text.len()
        }),
{
    let ranges = seq![(a, b)];
    let plan = local_plan(cells, ranges);
    let id = local_of(timestamp);
    let m = touched(cells, plan, id);
    let new = inserted_cells(timestamp, text);
    let at = visible_at(cells, a);
    let g = text_at(seq![at], new);
    lemma_visible_at(cells, a);
    assert(local_at(cells, ranges, 0) == at);
    assert(plan.at =~= seq![at]);
    lemma_edited_laid(cells, plan, timestamp, text);
    lemma_new_text(plan.at, timestamp, text);
    let d = laid_out(m, g);
    assert(new.len() == text.len());
    assert forall|j: int| 0 <= j < new.len() implies (#[trigger] new[j]).visible by {}
    assert(unseen(g, v, m.len() as int));
    assert forall|k: int| 0 <= k < m.len() implies (#[trigger] m[k]).timestamp
        == cells[k].timestamp by {}
    let n = cells.len() as int;
    lemma_all_seen(cells, v, n);
    match bias {
        Bias::Left => {
            lemma_visible_seek(cells, offset, 0);
            lemma_first_place(cells, offset, 0);
            let p = visible_seek_from(cells, offset, 0);
            lemma_all_seen(cells, v, p);
            if p > 0 {
                lemma_all_seen(cells, v, p - 1);
            }
            lemma_seek_is(cells, v, p, 0, p);
            lemma_seek_laid(cells, m, g, v, p);
            lemma_rank_with_text(m, at, new, p);
            lemma_rank_hidden(cells, id, a, b, p);
            if offset <= a {
                if at < p {
                    assert(visible_rank(cells, at) < offset);
                }
            } else if p <= at {
                crate::weave::lemma_visible_rank_grows(cells, p, at);
            }
        },
        Bias::Right => {
            lemma_visible_at(cells, offset);
            let p = visible_at(cells, offset);
            lemma_all_seen(cells, v, p);
            if p < n {
                assert(observes(v, local_of(cells[p].timestamp)));
            }
            lemma_seen_at_is(cells, v, p, 0, p);
            lemma_rank_laid(cells, m, g, v, p);
            lemma_laid_at(m, g, p);
            let h = high(m, g, p);
            lemma_seen_at_is(d, v, p, 0, h);
            lemma_rank_with_text(m, at, new, p);
            lemma_rank_hidden(cells, id, a, b, p);
            if offset < a && at <= p {
                crate::weave::lemma_visible_rank_grows(cells, at, p);
            } else if offset >= a && p < at {
                crate::weave::lemma_visible_rank_grows(cells, p + 1, at);
                assert(cells[p].visible);
            }
        },
    }
}

/// The place found is the first one.
proof fn lemma_first_place(cells: Seq<Cell>, offset: int, p: int)
    requires
        0 <= p <= cells.len(),
        forall|i: int| 0 <= i < p ==> #[trigger] visible_rank(cells, i) < offset,
    ensures
        forall|i: int|
            0 <= i < visible_seek_from(cells, offset, p) ==> #[trigger] visible_rank(cells, i)
                < offset,
    decreases cells.len() - p,
{
    if p < cells.len() && visible_rank(cells, p) < offset {
        lemma_first_place(cells, offset, p + 1);
    }
}

/// An anchor behind the end of the text keeps its distance from the end of all the text
/// there is.
pub proof fn law_anchor_behind_the_end(cells: Seq<Cell>, v: Version, offset: int, bias: Bias)
    requires
        offset > visible_rank(cells, cells.len() as int),
        offset + cells.len() <= usize::MAX,
    ensures
        anchor_for(cells, v, offset, bias).offset - cells.len() == offset - visible_rank(
            cells,
            cells.len() as int,
        ),
        anchor_for(cells, v, offset, bias).bias == bias,
        anchor_for(cells, v, offset, bias).version == v,
{
    lemma_visible_count(cells, cells.len() as int);
}

proof fn lemma_visible_count(cells: Seq<Cell>, i: int)
    requires
        0 <= i <= cells.len(),
    ensures
        0 <= visible_rank(cells, i) <= i,
    decreases i,
{
    if i > 0 {
        lemma_visible_count(cells, i - 1);
    }
}

} // verus!
