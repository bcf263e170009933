//! What an edit does to a document: where its text goes, and which cells it
//! hides.

use vstd::prelude::*;

use crate::builder::cell_bytes;
use crate::clock::{Lamport, Local, Version, after, observes};
use crate::document::{
    Cell, Doc, lemma_cell, lemma_cells_slice, lemma_len_before_grows, run_cells, seen_rank,
    visible_rank,
};
use crate::fragment::{InsertionTimestamp, Piece, inserted_piece, lamport_of, local_of, shown_at};
use crate::local::lemma_fragment_end_bounds;
use crate::undo_map::UndoLog;

verus! {

/// Where an edit acts: for each of its ranges the place where the new text is
/// inserted and the place where the range ends, and the cells it hides.
#[verifier::ext_equal]
pub ghost struct Plan {
    pub at: Seq<int>,
    pub ends: Seq<int>,
    pub hits: Set<int>,
}

impl Plan {
    /// A fragment starts at `i` after the edit if there is a cell.
    pub open spec fn cut(self, i: int) -> bool {
        self.at.contains(i) || self.ends.contains(i)
    }

    /// The ranges are in order, and what is hidden lies within them.
    pub open spec fn ok(self, len: int) -> bool {
        &&& self.at.len() == self.ends.len()
        &&& forall|k: int|
            0 <= k < self.at.len() ==> 0 <= #[trigger] self.at[k] <= self.ends[k] <= len
        &&& forall|j: int, k: int|
            0 <= j < k < self.at.len() ==> #[trigger] self.ends[j] <= #[trigger] self.at[k]
        &&& forall|i: int| #[trigger] self.hits.contains(i) ==> self.in_some_range(i)
    }

    pub open spec fn in_some_range(self, i: int) -> bool {
        exists|k: int| 0 <= k < self.at.len() && #[trigger] self.at[k] <= i < self.ends[k]
    }
}

/// A cell that is cut off from the one before it, or hidden by `id`, or both.
pub open spec fn touched_cell(c: Cell, cut: bool, hit: bool, id: Local) -> Cell {
    Cell {
        head: c.head || cut,
        visible: c.visible && !hit,
        deletions: if hit {
            c.deletions.insert(id)
        } else {
            c.deletions
        },
        ..c
    }
}

/// The cells, cut and hidden as planned.
pub open spec fn touched(cells: Seq<Cell>, plan: Plan, id: Local) -> Seq<Cell> {
    Seq::new(
        cells.len(),
        |i: int| touched_cell(cells[i], plan.cut(i), plan.hits.contains(i), id),
    )
}

/// The first `p` cells with `text` inserted at the first `k` places.
pub open spec fn woven(cells: Seq<Cell>, at: Seq<int>, text: Seq<Cell>, k: int, p: int) -> Seq<Cell>
    decreases k,
{
    if k <= 0 {
        cells.subrange(0, p)
    } else {
        woven(cells, at, text, k - 1, at[k - 1]) + text + cells.subrange(at[k - 1], p)
    }
}

/// The cells of freshly inserted text.
pub open spec fn inserted_cells(timestamp: InsertionTimestamp, text: Seq<u8>) -> Seq<Cell> {
    run_cells(inserted_piece(timestamp, text.len()), text)
}

/// The document after an edit.
pub open spec fn edited(
    cells: Seq<Cell>,
    plan: Plan,
    timestamp: InsertionTimestamp,
    text: Seq<u8>,
) -> Seq<Cell> {
    woven(
        touched(cells, plan, local_of(timestamp)),
        plan.at,
        inserted_cells(timestamp, text),
        plan.at.len() as int,
        cells.len() as int,
    )
}

/// `x` lies in one of the ranges.
pub open spec fn in_ranges(ranges: Seq<(int, int)>, x: int) -> bool {
    exists|k: int| 0 <= k < ranges.len() && (#[trigger] ranges[k]).0 <= x < ranges[k].1
}

/// The ranges are in order, and no two of them touch.
pub open spec fn separated(ranges: Seq<(int, int)>) -> bool {
    &&& forall|k: int|
        0 <= k < ranges.len() ==> 0 <= (#[trigger] ranges[k]).0 <= ranges[k].1
    &&& forall|j: int, k: int|
        0 <= j < k < ranges.len() ==> (#[trigger] ranges[j]).1 < (#[trigger] ranges[k]).0
}

/// The ranges are in order; they may touch.
pub open spec fn in_order(ranges: Seq<(int, int)>) -> bool {
    &&& forall|k: int|
        0 <= k < ranges.len() ==> 0 <= (#[trigger] ranges[k]).0 <= ranges[k].1
    &&& forall|j: int, k: int|
        0 <= j < k < ranges.len() ==> (#[trigger] ranges[j]).1 <= (#[trigger] ranges[k]).0
}

/// The first place at or after `p` that has `offset` cells before it that `v`
/// had seen.
pub open spec fn seek_from(cells: Seq<Cell>, v: Version, offset: int, p: int) -> int
    decreases cells.len() - p,
{
    if p >= cells.len() || seen_rank(cells, v, p) >= offset {
        p
    } else {
        seek_from(cells, v, offset, p + 1)
    }
}

/// The first place that has `offset` cells before it that `v` had seen.
pub open spec fn seek(cells: Seq<Cell>, v: Version, offset: int) -> int {
    seek_from(cells, v, offset, 0)
}

/// The first place at or after `p` whose cell was not inserted after `lamport`.
pub open spec fn skip_newer(cells: Seq<Cell>, lamport: Lamport, p: int) -> int
    decreases cells.len() - p,
{
    if 0 <= p < cells.len() && after(lamport_of(cells[p].timestamp), lamport) {
        skip_newer(cells, lamport, p + 1)
    } else {
        p
    }
}

/// Where an edit made at version `v` inserts its text for a range that starts
/// at `offset` in what `v` had seen: after the text that other replicas
/// inserted there later.
pub open spec fn remote_at(cells: Seq<Cell>, v: Version, lamport: Lamport, offset: int) -> int {
    skip_newer(cells, lamport, seek(cells, v, offset))
}

/// Where a range of an edit made at version `v` ends.
pub open spec fn remote_end(
    cells: Seq<Cell>,
    v: Version,
    lamport: Lamport,
    range: (int, int),
) -> int {
    if range.0 == range.1 {
        remote_at(cells, v, lamport, range.0)
    } else {
        seek(cells, v, range.1)
    }
}

/// The cell was shown at version `v`.
pub open spec fn cell_shown_at(c: Cell, v: Version, log: UndoLog) -> bool {
    shown_at(c.timestamp, c.deletions, v, log)
}

/// What an edit does that finds nothing in its way that its version had seen.
pub open spec fn plain_plan(
    cells: Seq<Cell>,
    log: UndoLog,
    v: Version,
    lamport: Lamport,
    ranges: Seq<(int, int)>,
) -> Plan {
    Plan {
        at: Seq::new(ranges.len(), |k: int| remote_at(cells, v, lamport, ranges[k].0)),
        ends: Seq::new(ranges.len(), |k: int| remote_end(cells, v, lamport, ranges[k])),
        hits: Set::new(
            |i: int|
                0 <= i < cells.len() && cell_shown_at(cells[i], v, log) && in_ranges(
                    ranges,
                    seen_rank(cells, v, i),
                ),
        ),
    }
}

/// A fragment that the version had seen goes on at `p`.
pub open spec fn goes_on(cells: Seq<Cell>, v: Version, p: int) -> bool {
    0 < p < cells.len() && !cells[p].head && observes(v, local_of(cells[p].timestamp))
}

/// Where an edit inserts its text for a range that starts at `offset`: within a
/// fragment right there, else after all newer text that follows, seen or not.
pub open spec fn landing_at(cells: Seq<Cell>, v: Version, lamport: Lamport, offset: int) -> int {
    let p = seek(cells, v, offset);
    if goes_on(cells, v, p) {
        p
    } else {
        skip_newer(cells, lamport, p)
    }
}

/// Where a range of an edit ends: where it ended at version `v`, but not before its
/// start.
pub open spec fn landing_end(
    cells: Seq<Cell>,
    v: Version,
    lamport: Lamport,
    range: (int, int),
) -> int {
    let at = landing_at(cells, v, lamport, range.0);
    let end = seek(cells, v, range.1);
    if range.0 == range.1 || end < at {
        at
    } else {
        end
    }
}

/// What an edit made at version `v` does to a document that may have changed
/// since: it hides what was shown in its ranges at that version. An edit that is
/// older than text which its version had seen may find such text in its way; its
/// ranges then start after it.
pub open spec fn remote_plan(
    cells: Seq<Cell>,
    log: UndoLog,
    v: Version,
    lamport: Lamport,
    ranges: Seq<(int, int)>,
) -> Plan {
    Plan {
        at: Seq::new(ranges.len(), |k: int| landing_at(cells, v, lamport, ranges[k].0)),
        ends: Seq::new(ranges.len(), |k: int| landing_end(cells, v, lamport, ranges[k])),
        hits: Set::new(
            |i: int|
                0 <= i < cells.len() && cell_shown_at(cells[i], v, log) && exists|k: int|
                    0 <= k < ranges.len() && landing_at(cells, v, lamport, (#[trigger] ranges[k]).0)
                        <= i < landing_end(cells, v, lamport, ranges[k]),
        ),
    }
}

/// Range `k` comes where the text of an edit can go, even if something that its
/// version had seen is in the way. Within a fragment, the range before it does
/// not touch it. Elsewhere, an empty range is the last one, or the next one
/// starts with it, or after the fragment that stands where the text goes; and
/// any other range goes on past that fragment, which was not shown.
pub open spec fn passable(
    cells: Seq<Cell>,
    log: UndoLog,
    v: Version,
    lamport: Lamport,
    ranges: Seq<(int, int)>,
    k: int,
) -> bool {
    let range = ranges[k];
    let at = landing_at(cells, v, lamport, range.0);
    let reached = seen_rank(cells, v, at);
    let last = k + 1 == ranges.len();
    clear(cells, v, lamport, range.0) || if goes_on(cells, v, seek(cells, v, range.0)) {
        k == 0 || ranges[k - 1].1 < range.0
    } else if range.0 == range.1 {
        last || ranges[k + 1].0 == range.0 || (at < cells.len() && seen_rank(
            cells,
            v,
            fragment_end(cells, at),
        ) < ranges[k + 1].0)
    } else {
        &&& at < cells.len()
        &&& !cell_shown_at(cells[at], v, log)
        &&& reached < range.1 || (reached == range.1 && !observes(
            v,
            local_of(cells[at].timestamp),
        ) && (last || ranges[k + 1].0 > range.1))
    }
}

/// No character is cut in two at `p`.
pub open spec fn cuttable(cells: Seq<Cell>, p: int) -> bool {
    0 <= p < cells.len() && !cells[p].head ==> !vstd::utf8::is_continuation_byte(cells[p].byte)
}

/// On the way to where the text for a range that starts at `offset` goes,
/// nothing is passed that the version of the edit had seen.
pub open spec fn clear(cells: Seq<Cell>, v: Version, lamport: Lamport, offset: int) -> bool {
    seen_rank(cells, v, remote_at(cells, v, lamport, offset)) == offset
}

/// An edit names places of the text that its version had seen.
pub open spec fn placed(
    cells: Seq<Cell>,
    v: Version,
    lamport: Lamport,
    ranges: Seq<(int, int)>,
) -> bool {
    &&& in_order(ranges)
    &&& forall|k: int|
        0 <= k < ranges.len() ==> (#[trigger] ranges[k]).1 <= seen_rank(
            cells,
            v,
            cells.len() as int,
        ) && clear(cells, v, lamport, ranges[k].0)
}

/// An edit that can be applied: its ranges are in order, name places of the text
/// that its version had seen, between characters, and come where its text can
/// go.
pub open spec fn remote_ok(
    cells: Seq<Cell>,
    log: UndoLog,
    v: Version,
    lamport: Lamport,
    ranges: Seq<(int, int)>,
    text: Seq<u8>,
) -> bool {
    &&& in_order(ranges)
    &&& forall|k: int|
        0 <= k < ranges.len() ==> (#[trigger] ranges[k]).1 <= seen_rank(
            cells,
            v,
            cells.len() as int,
        ) && passable(cells, log, v, lamport, ranges, k) && cuttable(
            cells,
            seek(cells, v, ranges[k].0),
        ) && cuttable(cells, seek(cells, v, ranges[k].1))
    &&& cells.len() + ranges.len() * text.len() < usize::MAX
}

/// The place of the visible cell that has `offset` visible cells before it,
/// from `p` on; the end if there is none.
pub open spec fn visible_at_from(cells: Seq<Cell>, offset: int, p: int) -> int
    decreases cells.len() - p,
{
    if p >= cells.len() || (0 <= p && cells[p].visible && visible_rank(cells, p) >= offset) {
        p
    } else {
        visible_at_from(cells, offset, p + 1)
    }
}

/// The place of the visible cell that has `offset` visible cells before it;
/// the end if there is none.
pub open spec fn visible_at(cells: Seq<Cell>, offset: int) -> int {
    visible_at_from(cells, offset, 0)
}

/// The end of the fragment that the cell at `p` belongs to.
pub open spec fn fragment_end(cells: Seq<Cell>, p: int) -> int
    decreases cells.len() - p,
{
    if p + 1 >= cells.len() || cells[p + 1].head {
        p + 1
    } else {
        fragment_end(cells, p + 1)
    }
}

/// Range `k` starts right where the fragment ends in which the range before it
/// ended: its text goes next to that fragment.
pub open spec fn follows_fragment(cells: Seq<Cell>, ranges: Seq<(int, int)>, k: int) -> bool
    decreases k, 1int,
{
    if k <= 0 {
        false
    } else {
        let q = local_end(cells, ranges, k - 1);
        &&& !(follows_fragment(cells, ranges, k - 1) && ranges[k - 1].0 == ranges[k - 1].1)
        &&& 0 <= q < cells.len()
        &&& cells[q].visible
        &&& visible_rank(cells, fragment_end(cells, q)) == ranges[k].0
    }
}

/// Where an edit inserts its text for its range `k` of visible text.
pub open spec fn local_at(cells: Seq<Cell>, ranges: Seq<(int, int)>, k: int) -> int
    decreases k, 2int,
{
    if k > 0 && follows_fragment(cells, ranges, k) {
        fragment_end(cells, local_end(cells, ranges, k - 1))
    } else {
        visible_at(cells, ranges[k].0)
    }
}

/// Where range `k` of visible text ends: right after its last visible cell.
pub open spec fn local_end(cells: Seq<Cell>, ranges: Seq<(int, int)>, k: int) -> int
    decreases k, 3int,
{
    if ranges[k].0 == ranges[k].1 {
        local_at(cells, ranges, k)
    } else {
        visible_at(cells, ranges[k].1 - 1) + 1
    }
}

/// What an edit of the visible text does.
pub open spec fn local_plan(cells: Seq<Cell>, ranges: Seq<(int, int)>) -> Plan {
    Plan {
        at: Seq::new(ranges.len(), |k: int| local_at(cells, ranges, k)),
        ends: Seq::new(ranges.len(), |k: int| local_end(cells, ranges, k)),
        hits: Set::new(
            |i: int|
                0 <= i < cells.len() && cells[i].visible && in_ranges(
                    ranges,
                    visible_rank(cells, i),
                ),
        ),
    }
}

/// The ranges name places of the visible text, between characters.
pub open spec fn local_ok(cells: Seq<Cell>, ranges: Seq<(int, int)>, text: Seq<u8>) -> bool {
    &&& separated(ranges)
    &&& forall|k: int|
        0 <= k < ranges.len() ==> (#[trigger] ranges[k]).1 <= visible_rank(
            cells,
            cells.len() as int,
        ) && cuttable(cells, visible_at(cells, ranges[k].0)) && cuttable(
            cells,
            visible_at(cells, ranges[k].1),
        )
    &&& cells.len() + ranges.len() * text.len() < usize::MAX
}

// What weaving adds.
pub proof fn lemma_woven_on(cells: Seq<Cell>, at: Seq<int>, text: Seq<Cell>, k: int, p: int, q: int)
    requires
        0 <= k,
        0 <= p <= q <= cells.len(),
        k > 0 ==> 0 <= at[k - 1] <= p,
    ensures
        woven(cells, at, text, k, p) + cells.subrange(p, q) == woven(cells, at, text, k, q),
{
    let from = if k > 0 {
        at[k - 1]
    } else {
        0
    };
    assert(cells.subrange(from, p) + cells.subrange(p, q) =~= cells.subrange(from, q));
    if k > 0 {
        let w = woven(cells, at, text, k - 1, at[k - 1]) + text;
        assert(w + cells.subrange(from, p) + cells.subrange(p, q) =~= w + (cells.subrange(from, p)
            + cells.subrange(p, q)));
    }
}

pub proof fn lemma_woven_text(cells: Seq<Cell>, at: Seq<int>, text: Seq<Cell>, k: int)
    requires
        0 <= k,
        0 <= at[k] <= cells.len(),
    ensures
        woven(cells, at, text, k + 1, at[k]) == woven(cells, at, text, k, at[k]) + text,
{
    assert(cells.subrange(at[k], at[k]) =~= Seq::<Cell>::empty());
    assert(woven(cells, at, text, k, at[k]) + text + Seq::<Cell>::empty() =~= woven(
        cells,
        at,
        text,
        k,
        at[k],
    ) + text);
}

pub proof fn lemma_woven_len(cells: Seq<Cell>, at: Seq<int>, text: Seq<Cell>, k: int, p: int)
    requires
        0 <= k <= at.len(),
        0 <= p <= cells.len(),
        k > 0 ==> at[k - 1] <= p,
        forall|j: int| 0 <= j < k ==> 0 <= #[trigger] at[j] <= p,
        forall|i: int, j: int| 0 <= i < j < k ==> #[trigger] at[i] <= #[trigger] at[j],
    ensures
        woven(cells, at, text, k, p).len() == p + k * text.len(),
    decreases k,
{
    if k > 0 {
        lemma_woven_len(cells, at, text, k - 1, at[k - 1]);
        assert(k * text.len() == (k - 1) * text.len() + text.len()) by (nonlinear_arith);
    } else {
        assert(0 * text.len() == 0);
    }
}

/// Between two ranges nothing is hidden, and nothing is cut but the ends.
pub proof fn lemma_gap(plan: Plan, len: int, k: int, p: int, q: int)
    requires
        plan.ok(len),
        0 <= k <= plan.at.len(),
        k > 0 ==> plan.ends[k - 1] <= p,
        k < plan.at.len() ==> q <= plan.at[k],
        p <= q,
    ensures
        forall|i: int| p < i < q ==> !#[trigger] plan.cut(i),
        forall|i: int| p <= i < q ==> !#[trigger] plan.hits.contains(i),
{
    assert forall|i: int| p < i < q implies !#[trigger] plan.cut(i) by {
        if plan.at.contains(i) {
            let j = plan.at.index_of(i);
            assert(plan.at[j] == i);
            if j < k {
                assert(plan.at[j] <= plan.ends[j]);
                if j < k - 1 {
                    assert(plan.ends[j] <= plan.at[k - 1]);
                }
            } else if j > k {
                assert(plan.ends[k] <= plan.at[j]);
                assert(plan.at[k] <= plan.ends[k]);
            }
        }
        if plan.ends.contains(i) {
            let j = plan.ends.index_of(i);
            assert(plan.ends[j] == i);
            assert(plan.at[j] <= plan.ends[j]);
            if j < k - 1 {
                assert(plan.ends[j] <= plan.at[k - 1]);
            } else if j > k {
                assert(plan.ends[k] <= plan.at[j]);
                assert(plan.at[k] <= plan.ends[k]);
            }
        }
    }
    assert forall|i: int| p <= i < q implies !#[trigger] plan.hits.contains(i) by {
        if plan.hits.contains(i) {
            let j = choose|j: int|
                0 <= j < plan.at.len() && #[trigger] plan.at[j] <= i < plan.ends[j];
            if j < k - 1 {
                assert(plan.ends[j] <= plan.at[k - 1]);
                assert(plan.at[k - 1] <= plan.ends[k - 1]);
            } else if j > k {
                assert(plan.ends[k] <= plan.at[j]);
                assert(plan.at[k] <= plan.ends[k]);
            }
        }
    }
}

/// Within a range nothing is cut.
pub proof fn lemma_inside(plan: Plan, len: int, k: int)
    requires
        plan.ok(len),
        0 <= k < plan.at.len(),
    ensures
        forall|i: int| plan.at[k] < i < plan.ends[k] ==> !#[trigger] plan.cut(i),
{
    assert forall|i: int| plan.at[k] < i < plan.ends[k] implies !#[trigger] plan.cut(i) by {
        if plan.at.contains(i) {
            let j = plan.at.index_of(i);
            assert(plan.at[j] == i);
            if j < k {
                assert(plan.at[j] <= plan.ends[j]);
                assert(plan.ends[j] <= plan.at[k]);
            } else if j > k {
                assert(plan.ends[k] <= plan.at[j]);
            }
        }
        if plan.ends.contains(i) {
            let j = plan.ends.index_of(i);
            assert(plan.ends[j] == i);
            if j < k {
                assert(plan.ends[j] <= plan.at[k]);
            } else if j > k {
                assert(plan.ends[k] <= plan.at[j]);
                assert(plan.at[j] <= plan.ends[j]);
            }
        }
    }
}

/// A fragment with or without a deletion by `id`.
pub open spec fn hit_piece(p: Piece, hit: bool, id: Local) -> Piece {
    if hit {
        Piece { visible: false, deletions: p.deletions.insert(id), ..p }
    } else {
        p
    }
}

/// A part of a fragment, taken over as planned.
pub proof fn lemma_part(d: Doc, plan: Plan, id: Local, i: int, t: int, n: int, hit: bool, p: Piece)
    requires
        d.sized(),
        0 <= i < d.n(),
        0 <= t,
        0 < n,
        t + n <= d.pieces[i].len,
        forall|j: int|
            d.len_before(i) + t < j < d.len_before(i) + t + n ==> !#[trigger] plan.cut(j),
        t == 0 || plan.cut(d.len_before(i) + t),
        forall|j: int|
            d.len_before(i) + t <= j < d.len_before(i) + t + n ==> #[trigger] plan.hits.contains(j)
                == hit,
        p.timestamp == d.pieces[i].timestamp,
        p.max_undos == d.pieces[i].max_undos,
        p.visible == hit_piece(d.pieces[i], hit, id).visible,
        p.deletions == hit_piece(d.pieces[i], hit, id).deletions,
    ensures
        run_cells(
            p,
            cell_bytes(d.cells(), d.len_before(i) + t, d.len_before(i) + t + n),
        ) == touched(d.cells(), plan, id).subrange(
            d.len_before(i) + t,
            d.len_before(i) + t + n,
        ),
{
    let from = d.len_before(i) + t;
    lemma_len_before_grows(d, 0, i);
    let a = run_cells(p, cell_bytes(d.cells(), from, from + n));
    lemma_cell(d, i, t + n - 1);
    let b = touched(d.cells(), plan, id).subrange(from, from + n);
    assert forall|k: int| 0 <= k < n implies a[k] == b[k] by {
        lemma_cell(d, i, t + k);
        assert(b[k] == touched(d.cells(), plan, id)[from + k]);
        assert(plan.hits.contains(from + k) == hit);
        if k > 0 {
            assert(!plan.cut(from + k));
        }
    }
    assert(a =~= b);
}

/// Whole fragments between two ranges.
pub proof fn lemma_whole(d: Doc, plan: Plan, id: Local, a: int, b: int)
    requires
        d.sized(),
        0 <= a <= b <= d.n(),
        forall|j: int| d.len_before(a) < j < d.len_before(b) ==> !#[trigger] plan.cut(j),
        forall|j: int| d.len_before(a) <= j < d.len_before(b) ==> !#[trigger] plan.hits.contains(j),
        forall|j: int| 0 <= j < d.n() ==> (#[trigger] d.pieces[j]).len > 0,
    ensures
        touched(d.cells(), plan, id).subrange(d.len_before(a), d.len_before(b))
            == d.cells().subrange(d.len_before(a), d.len_before(b)),
{
    lemma_cells_slice(d, a, b);
    let x = touched(d.cells(), plan, id).subrange(d.len_before(a), d.len_before(b));
    let y = d.cells().subrange(d.len_before(a), d.len_before(b));
    assert forall|k: int| 0 <= k < d.len_before(b) - d.len_before(a) implies x[k] == y[k] by {
        let j = d.len_before(a) + k;
        assert(!plan.hits.contains(j));
        if k > 0 {
            assert(!plan.cut(j));
        } else {
            lemma_cell(d, a, 0);
        }
        assert(x[k] == touched(d.cells(), plan, id)[j]);
    }
    assert(x =~= y);
}

// Places in the text that a version had seen.
pub proof fn lemma_seen_rank_grows(cells: Seq<Cell>, v: Version, i: int, j: int)
    requires
        0 <= i <= j,
    ensures
        0 <= seen_rank(cells, v, i) <= seen_rank(cells, v, j) <= seen_rank(cells, v, i) + (j - i),
    decreases j,
{
    if i < j {
        lemma_seen_rank_grows(cells, v, i, j - 1);
    } else if i > 0 {
        lemma_seen_rank_grows(cells, v, i - 1, j - 1);
    }
}

pub proof fn lemma_visible_rank_grows(cells: Seq<Cell>, i: int, j: int)
    requires
        0 <= i <= j,
    ensures
        0 <= visible_rank(cells, i) <= visible_rank(cells, j) <= visible_rank(cells, i) + (j - i),
    decreases j,
{
    if i < j {
        lemma_visible_rank_grows(cells, i, j - 1);
    } else if i > 0 {
        lemma_visible_rank_grows(cells, i - 1, j - 1);
    }
}

proof fn lemma_seek_from(cells: Seq<Cell>, v: Version, offset: int, p: int)
    requires
        0 <= p <= cells.len(),
        offset <= seen_rank(cells, v, cells.len() as int),
        forall|i: int| 0 <= i < p ==> #[trigger] seen_rank(cells, v, i) < offset,
    ensures
        p <= seek_from(cells, v, offset, p) <= cells.len(),
        forall|i: int|
            0 <= i < seek_from(cells, v, offset, p) ==> #[trigger] seen_rank(cells, v, i) < offset,
        seen_rank(cells, v, seek_from(cells, v, offset, p)) >= offset,
    decreases cells.len() - p,
{
    if p < cells.len() && seen_rank(cells, v, p) < offset {
        lemma_seek_from(cells, v, offset, p + 1);
    }
}

/// What `seek` finds.
pub proof fn lemma_seek(cells: Seq<Cell>, v: Version, offset: int)
    requires
        0 <= offset <= seen_rank(cells, v, cells.len() as int),
    ensures
        0 <= seek(cells, v, offset) <= cells.len(),
        forall|i: int|
            0 <= i < seek(cells, v, offset) ==> #[trigger] seen_rank(cells, v, i) < offset,
        forall|i: int|
            seek(cells, v, offset) <= i ==> #[trigger] seen_rank(cells, v, i) >= offset,
        seen_rank(cells, v, seek(cells, v, offset)) == offset,
{
    lemma_seek_from(cells, v, offset, 0);
    let p = seek(cells, v, offset);
    if p > 0 {
        assert(seen_rank(cells, v, p - 1) < offset);
    }
    assert forall|i: int| p <= i implies #[trigger] seen_rank(cells, v, i) >= offset by {
        lemma_seen_rank_grows(cells, v, p, i);
    }
}

/// What is passed on the way to where a text goes, if the way is clear.
pub proof fn lemma_clear(cells: Seq<Cell>, v: Version, lamport: Lamport, offset: int)
    requires
        clear(cells, v, lamport, offset),
        0 <= offset <= seen_rank(cells, v, cells.len() as int),
    ensures
        0 <= seek(cells, v, offset) <= remote_at(cells, v, lamport, offset) <= cells.len(),
        forall|i: int|
            seek(cells, v, offset) <= i < remote_at(cells, v, lamport, offset) ==> !observes(
                v,
                local_of((#[trigger] cells[i]).timestamp),
            ),
{
    let p = seek(cells, v, offset);
    let q = remote_at(cells, v, lamport, offset);
    lemma_seek(cells, v, offset);
    lemma_skip_stops(cells, lamport, p);
    assert forall|i: int| p <= i < q implies !observes(
        v,
        local_of((#[trigger] cells[i]).timestamp),
    ) by {
        lemma_seen_rank_grows(cells, v, p, i);
        lemma_seen_rank_grows(cells, v, i + 1, q);
    }
}

/// Where nothing is in the way, both plans say the same of a range.
pub proof fn lemma_clear_landing(
    cells: Seq<Cell>,
    v: Version,
    lamport: Lamport,
    range: (int, int),
)
    requires
        clear(cells, v, lamport, range.0),
        0 <= range.0 <= range.1 <= seen_rank(cells, v, cells.len() as int),
    ensures
        landing_at(cells, v, lamport, range.0) == remote_at(cells, v, lamport, range.0),
        landing_end(cells, v, lamport, range) == remote_end(cells, v, lamport, range),
{
    lemma_clear(cells, v, lamport, range.0);
    lemma_seek(cells, v, range.0);
    lemma_seek(cells, v, range.1);
    let at = remote_at(cells, v, lamport, range.0);
    let end = seek(cells, v, range.1);
    if range.0 < range.1 && end < at {
        lemma_seen_rank_grows(cells, v, end, at);
    }
}

/// Where nothing is in the way, both plans are the same.
pub proof fn lemma_plain_plan(
    cells: Seq<Cell>,
    log: UndoLog,
    v: Version,
    lamport: Lamport,
    ranges: Seq<(int, int)>,
)
    requires
        placed(cells, v, lamport, ranges),
    ensures
        remote_plan(cells, log, v, lamport, ranges) == plain_plan(cells, log, v, lamport, ranges),
{
    let a = plain_plan(cells, log, v, lamport, ranges);
    let b = remote_plan(cells, log, v, lamport, ranges);
    assert forall|k: int| 0 <= k < ranges.len() implies a.at[k] == b.at[k] && a.ends[k]
        == b.ends[k] by {
        assert(0 <= ranges[k].0 <= ranges[k].1);
        lemma_clear_landing(cells, v, lamport, ranges[k]);
    }
    assert(a.at =~= b.at);
    assert(a.ends =~= b.ends);
    assert forall|i: int| a.hits.contains(i) <==> b.hits.contains(i) by {
        if a.hits.contains(i) {
            let x = seen_rank(cells, v, i);
            let k = choose|k: int|
                0 <= k < ranges.len() && (#[trigger] ranges[k]).0 <= x < ranges[k].1;
            assert(0 <= ranges[k].0 <= ranges[k].1);
            lemma_remote_hit(cells, v, lamport, ranges, k, i);
            lemma_clear_landing(cells, v, lamport, ranges[k]);
        }
        if b.hits.contains(i) {
            let k = choose|k: int|
                0 <= k < ranges.len() && landing_at(cells, v, lamport, (#[trigger] ranges[k]).0)
                    <= i < landing_end(cells, v, lamport, ranges[k]);
            assert(0 <= ranges[k].0 <= ranges[k].1);
            lemma_clear_landing(cells, v, lamport, ranges[k]);
            lemma_clear(cells, v, lamport, ranges[k].0);
            lemma_seek(cells, v, ranges[k].0);
            lemma_seek(cells, v, ranges[k].1);
            assert(in_ranges(ranges, seen_rank(cells, v, i)));
        }
    }
    assert(a.hits =~= b.hits);
}

/// Where a range of an edit starts and ends, whatever is in the way.
pub proof fn lemma_landing(cells: Seq<Cell>, v: Version, lamport: Lamport, range: (int, int))
    requires
        0 <= range.0 <= range.1 <= seen_rank(cells, v, cells.len() as int),
    ensures
        0 <= seek(cells, v, range.0) <= landing_at(cells, v, lamport, range.0) <= landing_end(
            cells,
            v,
            lamport,
            range,
        ) <= cells.len(),
        seen_rank(cells, v, landing_at(cells, v, lamport, range.0)) >= range.0,
        seen_rank(cells, v, landing_end(cells, v, lamport, range)) >= range.1,
        seen_rank(cells, v, landing_at(cells, v, lamport, range.0)) == range.0 <==> clear(
            cells,
            v,
            lamport,
            range.0,
        ) || goes_on(cells, v, seek(cells, v, range.0)),
        clear(cells, v, lamport, range.0) ==> seen_rank(
            cells,
            v,
            landing_end(cells, v, lamport, range),
        ) == range.1,
        goes_on(cells, v, seek(cells, v, range.0)) ==> seen_rank(
            cells,
            v,
            landing_end(cells, v, lamport, range),
        ) == range.1,
{
    lemma_seek(cells, v, range.0);
    lemma_seek(cells, v, range.1);
    lemma_skip_stops(cells, lamport, seek(cells, v, range.0));
    let at = landing_at(cells, v, lamport, range.0);
    let end = seek(cells, v, range.1);
    if clear(cells, v, lamport, range.0) {
        lemma_clear_landing(cells, v, lamport, range);
    }
    if range.0 < range.1 && end < at {
        lemma_seen_rank_grows(cells, v, end, at);
    }
    if end < seek(cells, v, range.0) {
        assert(seen_rank(cells, v, end) < range.0);
    }
}

/// A range that can be applied ends before the next one starts.
proof fn lemma_next_range(
    cells: Seq<Cell>,
    log: UndoLog,
    v: Version,
    lamport: Lamport,
    ranges: Seq<(int, int)>,
    text: Seq<u8>,
    k: int,
)
    requires
        remote_ok(cells, log, v, lamport, ranges, text),
        0 <= k,
        k + 1 < ranges.len(),
    ensures
        landing_end(cells, v, lamport, ranges[k]) <= landing_at(cells, v, lamport, ranges[k + 1].0),
{
    let range = ranges[k];
    let next = ranges[k + 1];
    assert(0 <= range.0 <= range.1 <= next.0 <= next.1);
    lemma_landing(cells, v, lamport, range);
    lemma_landing(cells, v, lamport, next);
    lemma_seek(cells, v, range.1);
    lemma_seek(cells, v, next.0);
    let at = landing_at(cells, v, lamport, range.0);
    let end = landing_end(cells, v, lamport, range);
    let p = seek(cells, v, next.0);
    assert(passable(cells, log, v, lamport, ranges, k));
    if range.1 < next.0 {
        if seen_rank(cells, v, end) < next.0 && end > p {
            assert(seen_rank(cells, v, end) >= next.0);
        }
        if seen_rank(cells, v, end) >= next.0 {
            // The way was not clear.
            if range.0 == range.1 {
                lemma_fragment_end_bounds(cells, at);
                lemma_seen_rank_grows(cells, v, at, fragment_end(cells, at));
            } else if end == at {
                assert(seen_rank(cells, v, at) <= range.1);
            }
        }
    } else if end > p {
        // The ranges touch.
        if range.0 < range.1 {
            assert(end == at);
            assert(seek(cells, v, range.1) == p);
            assert(seen_rank(cells, v, at) >= range.1);
        }
    }
}

/// So do all the later ones.
proof fn lemma_later_range(
    cells: Seq<Cell>,
    log: UndoLog,
    v: Version,
    lamport: Lamport,
    ranges: Seq<(int, int)>,
    text: Seq<u8>,
    j: int,
    k: int,
)
    requires
        remote_ok(cells, log, v, lamport, ranges, text),
        0 <= j < k < ranges.len(),
    ensures
        landing_end(cells, v, lamport, ranges[j]) <= landing_at(cells, v, lamport, ranges[k].0),
    decreases k - j,
{
    lemma_next_range(cells, log, v, lamport, ranges, text, k - 1);
    if j < k - 1 {
        lemma_later_range(cells, log, v, lamport, ranges, text, j, k - 1);
        assert(0 <= ranges[k - 1].0 <= ranges[k - 1].1);
        lemma_landing(cells, v, lamport, ranges[k - 1]);
    }
}

/// The plan of an edit that can be applied is in order.
pub proof fn lemma_remote_plan(
    cells: Seq<Cell>,
    log: UndoLog,
    v: Version,
    lamport: Lamport,
    ranges: Seq<(int, int)>,
    text: Seq<u8>,
)
    requires
        remote_ok(cells, log, v, lamport, ranges, text),
    ensures
        remote_plan(cells, log, v, lamport, ranges).ok(cells.len() as int),
{
    let plan = remote_plan(cells, log, v, lamport, ranges);
    assert forall|k: int| 0 <= k < ranges.len() implies 0 <= #[trigger] plan.at[k] <= plan.ends[k]
        <= cells.len() by {
        assert(0 <= ranges[k].0 <= ranges[k].1);
        lemma_landing(cells, v, lamport, ranges[k]);
    }
    assert forall|j: int, k: int| 0 <= j < k < plan.at.len() implies #[trigger] plan.ends[j]
        <= #[trigger] plan.at[k] by {
        lemma_later_range(cells, log, v, lamport, ranges, text, j, k);
    }
    assert forall|i: int| #[trigger] plan.hits.contains(i) implies plan.in_some_range(i) by {
        let k = choose|k: int|
            0 <= k < ranges.len() && landing_at(cells, v, lamport, (#[trigger] ranges[k]).0) <= i
                < landing_end(cells, v, lamport, ranges[k]);
        assert(plan.at[k] <= i < plan.ends[k]);
    }
}

/// Once cells from `p` on have been skipped, the search goes on from there.
pub proof fn lemma_skip_on(cells: Seq<Cell>, lamport: Lamport, p: int, q: int)
    requires
        0 <= p <= q <= cells.len(),
        forall|i: int| p <= i < q ==> after(lamport_of((#[trigger] cells[i]).timestamp), lamport),
    ensures
        skip_newer(cells, lamport, p) == skip_newer(cells, lamport, q),
    decreases q - p,
{
    if p < q {
        assert(after(lamport_of(cells[p].timestamp), lamport));
        lemma_skip_on(cells, lamport, p + 1, q);
    }
}

/// What `skip_newer` passes and where it stops.
pub proof fn lemma_skip_stops(cells: Seq<Cell>, lamport: Lamport, p: int)
    requires
        0 <= p <= cells.len(),
    ensures
        p <= skip_newer(cells, lamport, p) <= cells.len(),
        forall|i: int|
            p <= i < skip_newer(cells, lamport, p) ==> after(
                lamport_of((#[trigger] cells[i]).timestamp),
                lamport,
            ),
        skip_newer(cells, lamport, p) < cells.len() ==> !after(
            lamport_of(cells[skip_newer(cells, lamport, p)].timestamp),
            lamport,
        ),
    decreases cells.len() - p,
{
    if p < cells.len() && after(lamport_of(cells[p].timestamp), lamport) {
        lemma_skip_stops(cells, lamport, p + 1);
    }
}

/// Where one range of an edit starts and ends.
pub proof fn lemma_remote_range(
    cells: Seq<Cell>,
    v: Version,
    lamport: Lamport,
    ranges: Seq<(int, int)>,
    k: int,
)
    requires
        placed(cells, v, lamport, ranges),
        0 <= k < ranges.len(),
    ensures
        0 <= seek(cells, v, ranges[k].0) <= remote_at(cells, v, lamport, ranges[k].0) <= remote_end(
            cells,
            v,
            lamport,
            ranges[k],
        ) <= cells.len(),
        seen_rank(cells, v, remote_at(cells, v, lamport, ranges[k].0)) == ranges[k].0,
        seen_rank(cells, v, remote_end(cells, v, lamport, ranges[k])) == ranges[k].1,
{
    assert(ranges[k].0 <= ranges[k].1);
    lemma_seek(cells, v, ranges[k].0);
    lemma_seek(cells, v, ranges[k].1);
    lemma_skip_stops(cells, lamport, seek(cells, v, ranges[k].0));
    let at = remote_at(cells, v, lamport, ranges[k].0);
    if ranges[k].0 < ranges[k].1 {
        let end = seek(cells, v, ranges[k].1);
        if end < at {
            lemma_seen_rank_grows(cells, v, end, at);
        }
    }
}

/// A cell that the version had seen lies in a range if its offset does.
pub proof fn lemma_remote_hit(
    cells: Seq<Cell>,
    v: Version,
    lamport: Lamport,
    ranges: Seq<(int, int)>,
    k: int,
    i: int,
)
    requires
        placed(cells, v, lamport, ranges),
        0 <= k < ranges.len(),
        0 <= i < cells.len(),
        observes(v, local_of(cells[i].timestamp)),
        ranges[k].0 <= seen_rank(cells, v, i) < ranges[k].1,
    ensures
        remote_at(cells, v, lamport, ranges[k].0) <= i < remote_end(cells, v, lamport, ranges[k]),
{
    lemma_seek(cells, v, ranges[k].0);
    lemma_seek(cells, v, ranges[k].1);
    lemma_clear(cells, v, lamport, ranges[k].0);
}

} // verus!
