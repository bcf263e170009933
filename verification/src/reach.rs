//! What an undo looks at on its way through the text.

use vstd::prelude::*;

use crate::clock::{Version, observes};
use crate::document::{Cell, seen_rank};
use crate::fragment::local_of;
use crate::local::lemma_fragment_end_bounds;
use crate::undo::{
    end_rank, pass_right, undo_from, undo_hits, undo_next, undo_start, undo_stop, undo_touched,
};
use crate::weave::{fragment_end, lemma_seen_rank_grows};

verus! {

/// One of the ranges holds the place.
pub open spec fn covers(list: Seq<(int, int)>, z: int) -> bool {
    exists|l: int| 0 <= l < list.len() && (#[trigger] list[l]).0 <= z < list[l].1
}

/// A range does not reach further than one before it.
pub open spec fn dominated(list: Seq<(int, int)>, l: int) -> bool {
    exists|k: int| 0 <= k < l && list[l].1 <= (#[trigger] list[k]).1
}

/// A version has seen the cell.
pub open spec fn seen(c: Cell, v: Version) -> bool {
    observes(v, local_of(c.timestamp))
}

/// No fragment goes on past the first `x` cells of those that `v` had seen.
pub open spec fn ends_between(cells: Seq<Cell>, v: Version, x: int) -> bool {
    forall|i: int|
        0 <= i < cells.len() && seen(cells[i], v) && #[trigger] seen_rank(cells, v, i) == x
            ==> cells[i].head
}

/// A fragment that holds a seen cell ends after it.
proof fn lemma_ends_after(cells: Seq<Cell>, v: Version, p: int, i: int)
    requires
        0 <= p <= i < fragment_end(cells, p),
        i < cells.len(),
        seen(cells[i], v),
    ensures
        seen_rank(cells, v, p) <= seen_rank(cells, v, i) < end_rank(cells, v, p),
{
    lemma_seen_rank_grows(cells, v, p, i);
    lemma_seen_rank_grows(cells, v, i + 1, fragment_end(cells, p));
}

/// Passing fragments by their ends does not pass a seen cell that lies at the
/// target or after it.
proof fn lemma_pass_stops(cells: Seq<Cell>, v: Version, target: int, p: int, i: int)
    requires
        0 <= p <= i < cells.len(),
        seen(cells[i], v),
        target <= seen_rank(cells, v, i),
    ensures
        p <= pass_right(cells, v, target, p) <= i,
        end_rank(cells, v, pass_right(cells, v, target, p)) > target,
    decreases cells.len() - p,
{
    if end_rank(cells, v, p) <= target {
        lemma_fragment_end_bounds(cells, p);
        if i < fragment_end(cells, p) {
            lemma_ends_after(cells, v, p, i);
        }
        lemma_pass_stops(cells, v, target, fragment_end(cells, p), i);
    }
}

/// The next fragment that is looked at is not past a seen cell.
proof fn lemma_next_stops(cells: Seq<Cell>, v: Version, p: int, end: int, i: int)
    requires
        0 <= p < fragment_end(cells, p) <= i < cells.len(),
        seen(cells[i], v),
        end <= end_rank(cells, v, p),
    ensures
        p < undo_next(cells, v, p, end) <= i,
{
    let q = fragment_end(cells, p);
    lemma_seen_rank_grows(cells, v, q, i);
    if end_rank(cells, v, q) == end {
        lemma_pass_stops(cells, v, end, q, i);
    }
}

/// Going through a range looks at a seen cell, or stops before it.
proof fn lemma_hit_or_left(cells: Seq<Cell>, v: Version, limit: int, p: int, end: int, i: int)
    requires
        0 <= p <= i < cells.len(),
        seen(cells[i], v),
        end <= end_rank(cells, v, p),
    ensures
        undo_hits(cells, v, limit, p, end).contains(i) || 0 <= undo_stop(cells, v, limit, p, end)
            <= i,
    decreases cells.len() - p,
{
    if end <= limit {
        lemma_fragment_end_bounds(cells, p);
        let q = undo_next(cells, v, p, end);
        let first = Set::new(|i: int| p <= i < fragment_end(cells, p));
        let others = undo_hits(cells, v, limit, q, end_rank(cells, v, q));
        assert(undo_hits(cells, v, limit, p, end) == first.union(others));
        if i < fragment_end(cells, p) {
            assert(first.contains(i));
        } else {
            lemma_next_stops(cells, v, p, end, i);
            lemma_hit_or_left(cells, v, limit, q, end_rank(cells, v, q), i);
        }
    }
}

/// A fragment that starts in a range that ends between fragments ends in it.
proof fn lemma_ends_within(cells: Seq<Cell>, v: Version, limit: int, p: int, i: int)
    requires
        0 <= p <= i < cells.len(),
        seen(cells[i], v),
        seen_rank(cells, v, i) < limit,
        ends_between(cells, v, limit),
    ensures
        end_rank(cells, v, p) <= limit,
{
    lemma_seen_rank_grows(cells, v, p, i);
    lemma_within_from(cells, v, limit, p);
}

proof fn lemma_within_from(cells: Seq<Cell>, v: Version, limit: int, p: int)
    requires
        0 <= p < cells.len(),
        seen_rank(cells, v, p) < limit,
        ends_between(cells, v, limit),
    ensures
        end_rank(cells, v, p) <= limit,
    decreases cells.len() - p,
{
    if !(p + 1 >= cells.len() || cells[p + 1].head) {
        if seen_rank(cells, v, p + 1) < limit {
            lemma_within_from(cells, v, limit, p + 1);
        } else {
            lemma_unseen_on(cells, v, limit, p + 1);
        }
    }
}

/// From the end of a range on, the rest of a fragment that is not over has not
/// been seen.
proof fn lemma_unseen_on(cells: Seq<Cell>, v: Version, limit: int, p: int)
    requires
        0 <= p < cells.len(),
        !cells[p].head,
        seen_rank(cells, v, p) == limit,
        ends_between(cells, v, limit),
    ensures
        end_rank(cells, v, p) == limit,
    decreases cells.len() - p,
{
    assert(!seen(cells[p], v));
    assert(seen_rank(cells, v, p + 1) == limit);
    if !(p + 1 >= cells.len() || cells[p + 1].head) {
        lemma_unseen_on(cells, v, limit, p + 1);
    }
}

/// Going through a range that ends between fragments looks at every seen cell in
/// it.
proof fn lemma_hit(cells: Seq<Cell>, v: Version, limit: int, p: int, end: int, i: int)
    requires
        0 <= p <= i < cells.len(),
        seen(cells[i], v),
        seen_rank(cells, v, i) < limit,
        ends_between(cells, v, limit),
        end <= end_rank(cells, v, p),
    ensures
        undo_hits(cells, v, limit, p, end).contains(i),
    decreases cells.len() - p,
{
    lemma_ends_within(cells, v, limit, p, i);
    lemma_fragment_end_bounds(cells, p);
    let q = undo_next(cells, v, p, end);
    let first = Set::new(|i: int| p <= i < fragment_end(cells, p));
    let others = undo_hits(cells, v, limit, q, end_rank(cells, v, q));
    assert(undo_hits(cells, v, limit, p, end) == first.union(others));
    if i < fragment_end(cells, p) {
        assert(first.contains(i));
    } else {
        lemma_next_stops(cells, v, p, end, i);
        lemma_hit(cells, v, limit, q, end_rank(cells, v, q), i);
    }
}

/// Going through ranges looks at every seen cell in one of them.
proof fn lemma_ranges_hit(
    cells: Seq<Cell>,
    v: Version,
    r: Seq<(int, int)>,
    k: int,
    p: int,
    j: int,
    i: int,
)
    requires
        forall|l: int, k: int|
            0 <= l < k < r.len() ==> (#[trigger] r[l]).0 <= (#[trigger] r[k]).0,
        forall|l: int|
            0 <= l < r.len() ==> ends_between(cells, v, (#[trigger] r[l]).1) || dominated(r, l),
        0 <= k <= j < r.len(),
        0 <= p <= i < cells.len(),
        seen(cells[i], v),
        r[j].0 <= seen_rank(cells, v, i) < r[j].1,
        forall|l: int| 0 <= l < k ==> (#[trigger] r[l]).1 <= seen_rank(cells, v, i),
    ensures
        undo_from(cells, v, r, k, p).contains(i),
    decreases r.len() - k,
{
    let x = seen_rank(cells, v, i);
    let limit = r[k].1;
    let end = end_rank(cells, v, p);
    let start = undo_start(cells, v, r[k], p);
    let hits = undo_hits(cells, v, limit, start, end);
    let stop = undo_stop(cells, v, limit, start, end);
    let others = undo_from(cells, v, r, k + 1, stop);
    assert(undo_from(cells, v, r, k, p) == hits.union(others));
    assert(r[k].0 <= r[j].0);
    if end < r[k].0 {
        lemma_pass_stops(cells, v, r[k].0, p, i);
    }
    if x < limit {
        if dominated(r, k) {
            let l = choose|l: int| 0 <= l < k && r[k].1 <= (#[trigger] r[l]).1;
            assert(r[l].1 <= x);
        }
        lemma_hit(cells, v, limit, start, end, i);
    } else {
        lemma_hit_or_left(cells, v, limit, start, end, i);
        if !hits.contains(i) {
            lemma_ranges_hit(cells, v, r, k + 1, stop, j, i);
        }
    }
}

/// An undo looks at every seen cell in its ranges.
pub proof fn lemma_looked_at(cells: Seq<Cell>, v: Version, r: Seq<(int, int)>, i: int)
    requires
        forall|l: int, k: int|
            0 <= l < k < r.len() ==> (#[trigger] r[l]).0 <= (#[trigger] r[k]).0,
        forall|l: int|
            0 <= l < r.len() ==> ends_between(cells, v, (#[trigger] r[l]).1) || dominated(r, l),
        0 <= i < cells.len(),
        seen(cells[i], v),
        covers(r, seen_rank(cells, v, i)),
    ensures
        undo_touched(cells, v, r).contains(i),
{
    let x = seen_rank(cells, v, i);
    let j = choose|j: int| 0 <= j < r.len() && (#[trigger] r[j]).0 <= x < r[j].1;
    assert(r[0].0 <= r[j].0);
    lemma_pass_stops(cells, v, r[0].0, 0, i);
    lemma_ranges_hit(cells, v, r, 0, pass_right(cells, v, r[0].0, 0), j, i);
}

} // verus!
