//! Ranges of an edit that are joined, and changes that are reported.

use vstd::prelude::*;

use crate::document::visible_rank;
use crate::edits::{Comparison, Span, lemma_spans};
use crate::state::coalesced;
use crate::weave::lemma_visible_rank_grows;

verus! {

/// `x` lies in one of the ranges.
pub open spec fn covered(ranges: Seq<(int, int)>, x: int) -> bool {
    exists|k: int| 0 <= k < ranges.len() && (#[trigger] ranges[k]).0 <= x < ranges[k].1
}

/// The range lies within one of the ranges.
pub open spec fn held(ranges: Seq<(int, int)>, range: (int, int)) -> bool {
    exists|k: int|
        0 <= k < ranges.len() && (#[trigger] ranges[k]).0 <= range.0 && range.1 <= ranges[k].1
}

/// One of the ranges starts at `x`, and has something to do.
pub open spec fn starts(ranges: Seq<(int, int)>, inserts: bool, x: int) -> bool {
    exists|k: int|
        0 <= k < ranges.len() && (#[trigger] ranges[k]).0 == x && (inserts || ranges[k].0
            < ranges[k].1)
}

/// One of the ranges ends at `x`, and has something to do.
pub open spec fn ends(ranges: Seq<(int, int)>, inserts: bool, x: int) -> bool {
    exists|k: int|
        0 <= k < ranges.len() && (#[trigger] ranges[k]).1 == x && (inserts || ranges[k].0
            < ranges[k].1)
}

/// The ranges are in the order of their starts.
pub open spec fn ordered(ranges: Seq<(int, int)>) -> bool {
    &&& forall|k: int| 0 <= k < ranges.len() ==> (#[trigger] ranges[k]).0 <= ranges[k].1
    &&& forall|j: int, k: int|
        0 <= j < k < ranges.len() ==> (#[trigger] ranges[j]).0 <= (#[trigger] ranges[k]).0
}

/// What joining ranges makes of them.
pub open spec fn is_joined(
    ranges: Seq<(int, int)>,
    inserts: bool,
    joined: Seq<(int, int)>,
) -> bool {
    &&& forall|x: int| #[trigger] covered(joined, x) <==> covered(ranges, x)
    &&& forall|k: int|
        0 <= k < joined.len() ==> #[trigger] starts(ranges, inserts, joined[k].0)
    &&& forall|k: int| 0 <= k < joined.len() ==> #[trigger] ends(ranges, inserts, joined[k].1)
    &&& forall|k: int| 0 <= k < joined.len() ==> (#[trigger] joined[k]).0 <= joined[k].1
    &&& forall|j: int, k: int|
        0 <= j < k < joined.len() ==> (#[trigger] joined[j]).1 < (#[trigger] joined[k]).0
    &&& forall|k: int|
        0 <= k < ranges.len() && (inserts || ranges[k].0 < ranges[k].1) ==> #[trigger] held(
            joined,
            ranges[k],
        )
}

/// The ranges with one more, which is joined to the last if it touches it.
pub open spec fn with_one(past: Seq<(int, int)>, range: (int, int)) -> Seq<(int, int)> {
    if past.len() > 0 && past.last().1 >= range.0 {
        past.update(
            past.len() - 1,
            (
                past.last().0,
                if past.last().1 > range.1 {
                    past.last().1
                } else {
                    range.1
                },
            ),
        )
    } else {
        past.push(range)
    }
}

proof fn lemma_pushed_covers(fewer: Seq<(int, int)>, range: (int, int), x: int)
    ensures
        covered(fewer.push(range), x) <==> covered(fewer, x) || range.0 <= x < range.1,
{
    let some = fewer.push(range);
    let n = fewer.len() as int;
    assert(some[n] == range);
    if covered(some, x) {
        let k = choose|k: int| 0 <= k < some.len() && (#[trigger] some[k]).0 <= x < some[k].1;
        if k < n {
            assert(fewer[k].0 <= x < fewer[k].1);
        }
    }
    if covered(fewer, x) {
        let k = choose|k: int| 0 <= k < fewer.len() && (#[trigger] fewer[k]).0 <= x < fewer[k].1;
        assert(some[k].0 <= x < some[k].1);
    }
}

proof fn lemma_one_covers(past: Seq<(int, int)>, range: (int, int), x: int)
    requires
        range.0 <= range.1,
        past.len() > 0 ==> past.last().0 <= range.0 && past.last().0 <= past.last().1,
    ensures
        covered(with_one(past, range), x) <==> covered(past, x) || range.0 <= x < range.1,
{
    let now = with_one(past, range);
    let m = past.len() as int;
    if m > 0 && past.last().1 >= range.0 {
        assert(past[m - 1] == past.last());
        if covered(now, x) {
            let k = choose|k: int| 0 <= k < now.len() && (#[trigger] now[k]).0 <= x < now[k].1;
            if k < m - 1 {
                assert(past[k].0 <= x < past[k].1);
            } else if x < past[m - 1].1 {
                assert(past[m - 1].0 <= x < past[m - 1].1);
            }
        }
        if covered(past, x) {
            let k = choose|k: int| 0 <= k < past.len() && (#[trigger] past[k]).0 <= x < past[k].1;
            assert(now[k].0 <= x < now[k].1);
        }
        if range.0 <= x < range.1 {
            assert(now[m - 1].0 <= x < now[m - 1].1);
        }
    } else {
        lemma_pushed_covers(past, range, x);
    }
}

proof fn lemma_pushed_ends(fewer: Seq<(int, int)>, range: (int, int), inserts: bool, x: int)
    ensures
        starts(fewer, inserts, x) ==> starts(fewer.push(range), inserts, x),
        ends(fewer, inserts, x) ==> ends(fewer.push(range), inserts, x),
        inserts || range.0 < range.1 ==> starts(fewer.push(range), inserts, range.0) && ends(
            fewer.push(range),
            inserts,
            range.1,
        ),
{
    let some = fewer.push(range);
    assert(some[fewer.len() as int] == range);
    if starts(fewer, inserts, x) {
        let k = choose|k: int|
            0 <= k < fewer.len() && (#[trigger] fewer[k]).0 == x && (inserts || fewer[k].0
                < fewer[k].1);
        assert(some[k].0 == x);
    }
    if ends(fewer, inserts, x) {
        let k = choose|k: int|
            0 <= k < fewer.len() && (#[trigger] fewer[k]).1 == x && (inserts || fewer[k].0
                < fewer[k].1);
        assert(some[k].1 == x);
    }
}

proof fn lemma_one_held(past: Seq<(int, int)>, range: (int, int), other: (int, int))
    requires
        past.len() > 0 ==> past.last().0 <= range.0,
    ensures
        held(past, other) ==> held(with_one(past, range), other),
        held(with_one(past, range), range),
{
    let now = with_one(past, range);
    let m = past.len() as int;
    if held(past, other) {
        let j = choose|j: int|
            0 <= j < past.len() && (#[trigger] past[j]).0 <= other.0 && other.1 <= past[j].1;
        assert(now[j].0 <= other.0 && other.1 <= now[j].1);
    }
    if m > 0 && past.last().1 >= range.0 {
        assert(now[m - 1].0 <= range.0 && range.1 <= now[m - 1].1);
    } else {
        assert(now[m].0 <= range.0 && range.1 <= now[m].1);
    }
}

proof fn lemma_join_one(
    fewer: Seq<(int, int)>,
    range: (int, int),
    inserts: bool,
    past: Seq<(int, int)>,
)
    requires
        is_joined(fewer, inserts, past),
        range.0 <= range.1,
        inserts || range.0 < range.1,
        past.len() > 0 ==> past.last().0 <= range.0,
    ensures
        is_joined(fewer.push(range), inserts, with_one(past, range)),
{
    let some = fewer.push(range);
    let now = with_one(past, range);
    let m = past.len() as int;
    if m > 0 {
        assert(past[m - 1] == past.last());
    }
    assert forall|x: int| #[trigger] covered(now, x) <==> covered(some, x) by {
        lemma_pushed_covers(fewer, range, x);
        lemma_one_covers(past, range, x);
        assert(covered(past, x) <==> covered(fewer, x));
    }
    assert forall|k: int| 0 <= k < now.len() implies #[trigger] starts(
        some,
        inserts,
        now[k].0,
    ) by {
        lemma_pushed_ends(fewer, range, inserts, now[k].0);
        if k < m {
            assert(starts(fewer, inserts, past[k].0));
        }
    }
    assert forall|k: int| 0 <= k < now.len() implies #[trigger] ends(some, inserts, now[k].1) by {
        lemma_pushed_ends(fewer, range, inserts, now[k].1);
        if k < m {
            assert(ends(fewer, inserts, past[k].1));
        }
    }
    assert forall|k: int| 0 <= k < now.len() implies (#[trigger] now[k]).0 <= now[k].1 by {
        if k < m {
            assert(past[k].0 <= past[k].1);
        }
    }
    assert forall|j: int, k: int| 0 <= j < k < now.len() implies (#[trigger] now[j]).1 < (
    #[trigger] now[k]).0 by {
        if k < m {
            assert(past[j].1 < past[k].0);
        } else if j < m - 1 {
            assert(past[j].1 < past[m - 1].0);
        }
    }
    assert forall|k: int|
        0 <= k < some.len() && (inserts || some[k].0 < some[k].1) implies #[trigger] held(
        now,
        some[k],
    ) by {
        lemma_one_held(past, range, some[k]);
        if k < fewer.len() {
            assert(held(past, fewer[k]));
        }
    }
}

proof fn lemma_join_none(
    fewer: Seq<(int, int)>,
    range: (int, int),
    past: Seq<(int, int)>,
)
    requires
        is_joined(fewer, false, past),
        range.0 == range.1,
    ensures
        is_joined(fewer.push(range), false, past),
{
    let some = fewer.push(range);
    assert forall|x: int| #[trigger] covered(past, x) <==> covered(some, x) by {
        lemma_pushed_covers(fewer, range, x);
        assert(covered(past, x) <==> covered(fewer, x));
    }
    assert forall|k: int| 0 <= k < past.len() implies #[trigger] starts(some, false, past[k].0) by {
        assert(starts(fewer, false, past[k].0));
        lemma_pushed_ends(fewer, range, false, past[k].0);
    }
    assert forall|k: int| 0 <= k < past.len() implies #[trigger] ends(some, false, past[k].1) by {
        assert(ends(fewer, false, past[k].1));
        lemma_pushed_ends(fewer, range, false, past[k].1);
    }
    assert forall|k: int| 0 <= k < some.len() && some[k].0 < some[k].1 implies #[trigger] held(
        past,
        some[k],
    ) by {
        assert(held(past, fewer[k]));
    }
}

proof fn lemma_joined(ranges: Seq<(int, int)>, inserts: bool, n: int)
    requires
        ordered(ranges),
        0 <= n <= ranges.len(),
    ensures
        is_joined(ranges.take(n), inserts, coalesced(ranges, inserts, n)),
        coalesced(ranges, inserts, n).len() > 0 ==> forall|k: int|
            n <= k < ranges.len() ==> coalesced(ranges, inserts, n).last().0 <= (
            #[trigger] ranges[k]).0,
    decreases n,
{
    let now = coalesced(ranges, inserts, n);
    if n > 0 {
        lemma_joined(ranges, inserts, n - 1);
        let past = coalesced(ranges, inserts, n - 1);
        let fewer = ranges.take(n - 1);
        let range = ranges[n - 1];
        assert(ranges.take(n) =~= fewer.push(range));
        assert(ranges[n - 1].0 <= ranges[n - 1].1);
        if past.len() > 0 {
            assert(past.last().0 <= ranges[n - 1].0);
        }
        if !inserts && range.0 >= range.1 {
            lemma_join_none(fewer, range, past);
        } else {
            lemma_join_one(fewer, range, inserts, past);
            assert(now == with_one(past, range));
        }
        assert forall|k: int| n <= k < ranges.len() && now.len() > 0 implies now.last().0 <= (
        #[trigger] ranges[k]).0 by {
            assert(ranges[n - 1].0 <= ranges[k].0);
        }
    }
}

/// The ranges of an edit, in the order of their starts, are joined where they overlap
/// or touch and only there; what lies in them stays the same. Empty ranges go if there
/// is nothing to insert; else each range lies in one of those that are left.
pub proof fn law_ranges_are_joined(ranges: Seq<(int, int)>, inserts: bool)
    requires
        ordered(ranges),
    ensures
        is_joined(ranges, inserts, coalesced(ranges, inserts, ranges.len() as int)),
{
    lemma_joined(ranges, inserts, ranges.len() as int);
    assert(ranges.take(ranges.len() as int) =~= ranges);
}

/// How much new text the first `k` changes bring.
pub open spec fn brought(spans: Seq<Span>, k: int) -> int
    decreases k,
{
    if k <= 0 {
        0
    } else {
        brought(spans, k - 1) + (spans[k - 1].new.1 - spans[k - 1].new.0)
    }
}

/// How much old text the first `k` changes take away.
pub open spec fn taken(spans: Seq<Span>, k: int) -> int
    decreases k,
{
    if k <= 0 {
        0
    } else {
        taken(spans, k - 1) + (spans[k - 1].old.1 - spans[k - 1].old.0)
    }
}

/// How many of the first `i` bytes ever inserted are shown now and were not then.
pub open spec fn count_appeared(w: Comparison, i: int) -> int
    decreases i,
{
    if i <= 0 {
        0
    } else {
        count_appeared(w, i - 1) + if w.appeared(i - 1) {
            1int
        } else {
            0
        }
    }
}

/// How many of the first `i` bytes ever inserted were shown then and are not now.
pub open spec fn count_vanished(w: Comparison, i: int) -> int
    decreases i,
{
    if i <= 0 {
        0
    } else {
        count_vanished(w, i - 1) + if w.vanished(i - 1) {
            1int
        } else {
            0
        }
    }
}

proof fn lemma_sums_same(a: Seq<Span>, b: Seq<Span>, k: int)
    requires
        0 <= k <= a.len(),
        k <= b.len(),
        forall|j: int| 0 <= j < k ==> a[j] == b[j],
    ensures
        brought(a, k) == brought(b, k),
        taken(a, k) == taken(b, k),
    decreases k,
{
    if k > 0 {
        lemma_sums_same(a, b, k - 1);
        assert(a[k - 1] == b[k - 1]);
    }
}

proof fn lemma_tight(w: Comparison, i: int)
    requires
        0 <= i <= w.len(),
    ensures
        ({
            let spans = w.spans(i);
            let n = spans.len() as int;
            &&& brought(spans, n) == count_appeared(w, i)
            &&& taken(spans, n) == count_vanished(w, i)
            &&& forall|k: int| #![trigger spans[k]] 0 < k < n ==> spans[k - 1].new.1 < spans[k].new.0
            &&& forall|k: int|
                #![trigger spans[k]]
                0 <= k < n ==> spans[k].new.0 < spans[k].new.1 || spans[k].old.0 < spans[k].old.1
        }),
    decreases i,
{
    if i > 0 {
        lemma_tight(w, i - 1);
        lemma_spans(w, i - 1);
        lemma_visible_rank_grows(w.cells, i - 1, i);
        let past = w.spans(i - 1);
        let now = w.spans(i);
        let m = past.len() as int;
        let n = now.len() as int;
        if w.appeared(i - 1) || w.vanished(i - 1) {
            if m > 0 {
                assert(past.last() == past[m - 1]);
            }
            lemma_sums_same(past, now, n - 1);
            assert forall|k: int| #![trigger now[k]] 0 < k < n implies now[k - 1].new.1
                < now[k].new.0 by {
                if k < m {
                    assert(past[k - 1].new.1 < past[k].new.0);
                } else {
                    assert(past[m - 1].new.1 <= visible_rank(w.cells, i - 1));
                }
            }
            assert forall|k: int| #![trigger now[k]] 0 <= k < n implies now[k].new.0 < now[k].new.1
                || now[k].old.0 < now[k].old.1 by {
                if k < m {
                    assert(past[k].new.0 < past[k].new.1 || past[k].old.0 < past[k].old.1);
                    assert(past[k].new.0 <= past[k].new.1 && past[k].old.0 <= past[k].old.1);
                }
            }
        }
    }
}

/// The changes since a version hold no more than has changed: together they bring as
/// many bytes as have appeared, and take away as many as have vanished; none is empty;
/// and there is text that has not changed between any two.
pub proof fn law_changes_are_tight(w: Comparison)
    ensures
        ({
            let spans = w.spans(w.len());
            let n = spans.len() as int;
            &&& brought(spans, n) == count_appeared(w, w.len())
            &&& taken(spans, n) == count_vanished(w, w.len())
            &&& forall|k: int| #![trigger spans[k]] 0 < k < n ==> spans[k - 1].new.1 < spans[k].new.0
            &&& forall|k: int|
                #![trigger spans[k]]
                0 <= k < n ==> spans[k].new.0 < spans[k].new.1 || spans[k].old.0 < spans[k].old.1
        }),
{
    lemma_tight(w, w.len());
}

} // verus!
