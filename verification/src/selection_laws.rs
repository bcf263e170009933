//! Selections that are made from ranges of the text.

use vstd::prelude::*;

use crate::anchor_laws::law_anchor_round_trip;
use crate::buffer_selections::selection_range;
use crate::document::{all_seen, visible_rank};
use crate::random::{by_start, selection_of, selections_of, slot_after};
use crate::rope::Bias;
use crate::state::State;

verus! {

/// A selection that is made from a range of the text is the selection of that range:
/// it goes from the range's start to its end, and is reversed exactly if the start
/// comes after the end.
pub proof fn law_selection_of_a_range(s: State, range: (int, int), id: usize)
    requires
        all_seen(s.cells, s.version),
        0 <= range.0 <= visible_rank(s.cells, s.cells.len() as int),
        0 <= range.1 <= visible_rank(s.cells, s.cells.len() as int),
    ensures
        ({
            let selection = selection_of(s, range, id);
            &&& selection.id == id
            &&& selection_range(s.cells, selection) == range
            &&& selection.reversed <==> range.0 > range.1
            &&& selection.start.version == s.version
            &&& selection.end.version == s.version
            &&& selection.end.bias == Bias::Left
            &&& selection.reversed ==> selection.start.bias == Bias::Left
            &&& !selection.reversed ==> selection.start.bias == Bias::Right
        }),
{
    if range.0 > range.1 {
        law_anchor_round_trip(s.cells, s.version, range.1, Bias::Left);
        law_anchor_round_trip(s.cells, s.version, range.0, Bias::Left);
    } else {
        law_anchor_round_trip(s.cells, s.version, range.0, Bias::Right);
        law_anchor_round_trip(s.cells, s.version, range.1, Bias::Left);
    }
}

/// The ranges are in the order of their starts.
pub open spec fn in_start_order(ranges: Seq<(int, int)>) -> bool {
    forall|i: int, j: int|
        0 <= i < j < ranges.len() ==> (#[trigger] ranges[i]).0 <= (#[trigger] ranges[j]).0
}

proof fn lemma_slot(ranges: Seq<(int, int)>, start: int, n: int)
    requires
        in_start_order(ranges),
        0 <= n <= ranges.len(),
        forall|j: int| n <= j < ranges.len() ==> (#[trigger] ranges[j]).0 > start,
    ensures
        0 <= slot_after(ranges, start, n) <= n,
        forall|j: int| 0 <= j < slot_after(ranges, start, n) ==> (#[trigger] ranges[j]).0 <= start,
        forall|j: int|
            slot_after(ranges, start, n) <= j < ranges.len() ==> (#[trigger] ranges[j]).0 > start,
    decreases n,
{
    if n > 0 {
        if ranges[n - 1].0 <= start {
            assert forall|j: int| 0 <= j < n implies (#[trigger] ranges[j]).0 <= start by {
                if j < n - 1 {
                    assert(ranges[j].0 <= ranges[n - 1].0);
                }
            }
        } else {
            lemma_slot(ranges, start, n - 1);
        }
    }
}

/// Ranges are put into the order of their starts, and none is lost or added.
pub proof fn law_ranges_by_start(ranges: Seq<(int, int)>, n: int)
    requires
        0 <= n <= ranges.len(),
    ensures
        in_start_order(by_start(ranges, n)),
        by_start(ranges, n).len() == n,
        by_start(ranges, n).to_multiset() == ranges.take(n).to_multiset(),
    decreases n,
{
    broadcast use vstd::seq_lib::group_to_multiset_ensures;

    if n > 0 {
        law_ranges_by_start(ranges, n - 1);
        let before = by_start(ranges, n - 1);
        let range = ranges[n - 1];
        lemma_slot(before, range.0, before.len() as int);
        let i = slot_after(before, range.0, before.len() as int);
        let now = by_start(ranges, n);
        assert(now == before.insert(i, range));
        assert forall|a: int, b: int| 0 <= a < b < now.len() implies (#[trigger] now[a]).0 <= (
        #[trigger] now[b]).0 by {
            let p = if a < i {
                a
            } else {
                a - 1
            };
            let q = if b < i {
                b
            } else {
                b - 1
            };
            if a != i && b != i {
                assert(before[p].0 <= before[q].0);
            } else if a == i {
                assert(before[q].0 > range.0);
            } else {
                assert(before[p].0 <= range.0);
            }
        }
        assert(ranges.take(n) =~= ranges.take(n - 1).push(range));
        vstd::seq_lib::to_multiset_insert(before, i, range);
    } else {
        assert(by_start(ranges, 0) =~= ranges.take(0));
    }
}

/// Selections that are made from ranges are numbered one after the other, in the
/// order of the starts of their ranges, one for each range.
pub proof fn law_selections_of_ranges(s: State, ranges: Seq<(int, int)>, first: usize, i: int)
    requires
        0 <= i < ranges.len(),
        first + ranges.len() <= usize::MAX,
    ensures
        selections_of(s, ranges, first).len() == ranges.len(),
        selections_of(s, ranges, first)[i].id == first + i,
        selections_of(s, ranges, first)[i] == selection_of(
            s,
            by_start(ranges, ranges.len() as int)[i],
            (first + i) as usize,
        ),
{
    law_ranges_by_start(ranges, ranges.len() as int);
}

} // verus!
