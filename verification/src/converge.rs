//! Replicas that have seen the same edits hold the same text, in whatever order
//! the edits came.

use vstd::prelude::*;

use crate::clock::{Lamport, Local, Version, after, observes};
use crate::content::lemma_seek_is;
use crate::document::{Cell, seen_rank};
use crate::fragment::{InsertionTimestamp, lamport_of, local_of};
use crate::operation::{EditModel, bytes_of};
use crate::undo_map::UndoLog;
use crate::weave::{
    Plan, cell_shown_at, clear, edited, inserted_cells, lemma_remote_range, lemma_seek,
    lemma_seen_rank_grows, lemma_skip_stops, placed, plain_plan, seek, skip_newer, touched, woven,
};

verus! {

/// What lies before each cell, and after the last one.
pub type Gaps = spec_fn(int) -> Seq<Cell>;

/// The first `p` cells, each with what lies before it.
pub open spec fn laid(cells: Seq<Cell>, gaps: Gaps, p: int) -> Seq<Cell>
    decreases p,
{
    if p <= 0 {
        Seq::empty()
    } else {
        laid(cells, gaps, p - 1) + gaps(p - 1) + seq![cells[p - 1]]
    }
}

/// All the cells, with what lies between them.
pub open spec fn laid_out(cells: Seq<Cell>, gaps: Gaps) -> Seq<Cell> {
    laid(cells, gaps, cells.len() as int) + gaps(cells.len() as int)
}

/// How many of the places are `i`.
pub open spec fn times_at(at: Seq<int>, i: int) -> nat
    decreases at.len(),
{
    if at.len() == 0 {
        0
    } else {
        times_at(at.drop_last(), i) + if at.last() == i {
            1nat
        } else {
            0
        }
    }
}

/// A text, `n` times over.
pub open spec fn repeated(text: Seq<Cell>, n: nat) -> Seq<Cell>
    decreases n,
{
    if n == 0 {
        Seq::empty()
    } else {
        repeated(text, (n - 1) as nat) + text
    }
}

/// A text at each of some places, once for each time that the place is named.
pub open spec fn text_at(at: Seq<int>, text: Seq<Cell>) -> Gaps {
    |i: int| repeated(text, times_at(at, i))
}

/// The places grow.
pub open spec fn growing(at: Seq<int>) -> bool {
    forall|j: int, k: int| 0 <= j < k < at.len() ==> #[trigger] at[j] < #[trigger] at[k]
}

/// The places do not go back.
pub open spec fn rising(at: Seq<int>) -> bool {
    forall|j: int, k: int| 0 <= j < k < at.len() ==> #[trigger] at[j] <= #[trigger] at[k]
}

/// The places lie in a text of the given length.
pub open spec fn within(at: Seq<int>, len: int) -> bool {
    forall|k: int| 0 <= k < at.len() ==> 0 <= #[trigger] at[k] <= len
}

pub proof fn lemma_times_at(at: Seq<int>, i: int)
    ensures
        times_at(at, i) > 0 <==> at.contains(i),
    decreases at.len(),
{
    if at.len() > 0 {
        let rest = at.drop_last();
        lemma_times_at(rest, i);
        if rest.contains(i) {
            let k = rest.index_of(i);
            assert(at[k] == i);
        }
        if at.contains(i) {
            let k = at.index_of(i);
            if k < rest.len() {
                assert(rest[k] == i);
            }
        }
        assert(at[at.len() - 1] == at.last());
    }
}

/// What lies in the gaps is the text, over and over.
pub proof fn lemma_repeated(text: Seq<Cell>, n: nat)
    ensures
        n == 0 || text.len() == 0 ==> repeated(text, n).len() == 0,
        n > 0 && text.len() > 0 ==> repeated(text, n).len() > 0 && repeated(text, n)[0] == text[0],
        forall|j: int|
            0 <= j < repeated(text, n).len() ==> text.contains(#[trigger] repeated(text, n)[j]),
    decreases n,
{
    if n > 0 {
        let before = repeated(text, (n - 1) as nat);
        lemma_repeated(text, (n - 1) as nat);
        assert forall|j: int| 0 <= j < repeated(text, n).len() implies text.contains(
            #[trigger] repeated(text, n)[j],
        ) by {
            if j < before.len() {
                assert(repeated(text, n)[j] == before[j]);
            } else {
                assert(repeated(text, n)[j] == text[j - before.len()]);
            }
        }
    }
}

/// The cells of freshly inserted text, wherever it lies.
pub proof fn lemma_new_text(at: Seq<int>, timestamp: InsertionTimestamp, text: Seq<u8>)
    ensures
        forall|i: int, j: int|
            0 <= j < text_at(at, inserted_cells(timestamp, text))(i).len() ==> {
                let c = #[trigger] text_at(at, inserted_cells(timestamp, text))(i)[j];
                &&& c.timestamp == timestamp
                &&& c.visible
                &&& c.deletions == Set::<Local>::empty()
                &&& j == 0 ==> c.head
            },
        forall|i: int|
            !at.contains(i) ==> #[trigger] text_at(at, inserted_cells(timestamp, text))(i).len()
                == 0,
{
    let t = inserted_cells(timestamp, text);
    assert forall|i: int, j: int| 0 <= j < text_at(at, t)(i).len() implies {
        let c = #[trigger] text_at(at, t)(i)[j];
        &&& c.timestamp == timestamp
        &&& c.visible
        &&& c.deletions == Set::<Local>::empty()
        &&& j == 0 ==> c.head
    } by {
        lemma_repeated(t, times_at(at, i));
        let c = text_at(at, t)(i)[j];
        assert(t.contains(c));
        let k = t.index_of(c);
        assert(t[k] == c);
    }
    assert forall|i: int| !at.contains(i) implies #[trigger] text_at(at, t)(i).len() == 0 by {
        lemma_times_at(at, i);
    }
}

/// Where no place is named twice, there is the text once, or nothing.
pub proof fn lemma_once(at: Seq<int>, text: Seq<Cell>, i: int)
    requires
        growing(at),
    ensures
        text_at(at, text)(i) == if at.contains(i) {
            text
        } else {
            Seq::empty()
        },
{
    lemma_times_at(at, i);
    lemma_at_most_once(at, i);
    if at.contains(i) {
        assert(repeated(text, 0) + text =~= text);
        assert(repeated(text, 1) == repeated(text, 0) + text);
    }
}

proof fn lemma_at_most_once(at: Seq<int>, i: int)
    requires
        growing(at),
    ensures
        times_at(at, i) <= 1,
    decreases at.len(),
{
    if at.len() > 0 {
        let rest = at.drop_last();
        lemma_at_most_once(rest, i);
        lemma_times_at(rest, i);
        if rest.contains(i) {
            let k = rest.index_of(i);
            assert(at[k] < at[at.len() - 1]);
        }
    }
}

/// Weaving lays out the text.
proof fn lemma_woven_laid(cells: Seq<Cell>, at: Seq<int>, text: Seq<Cell>, k: int, p: int)
    requires
        rising(at),
        within(at, cells.len() as int),
        0 <= k <= at.len(),
        0 <= p <= cells.len(),
        k > 0 ==> at[k - 1] <= p,
    ensures
        woven(cells, at, text, k, p) == laid(cells, text_at(at.take(k), text), p) + text_at(
            at.take(k),
            text,
        )(p),
    decreases k,
{
    let now = at.take(k);
    let gaps = text_at(now, text);
    assert forall|i: int| i > (if k > 0 {
        at[k - 1]
    } else {
        -1
    }) implies #[trigger] gaps(i).len() == 0 by {
        lemma_times_at(now, i);
        if now.contains(i) {
            let j = now.index_of(i);
            assert(at[j] == i);
            if j < k - 1 {
                assert(at[j] <= at[k - 1]);
            }
        }
    }
    if k > 0 {
        let q = at[k - 1];
        let past = at.take(k - 1);
        let before = text_at(past, text);
        if k > 1 {
            assert(at[k - 2] <= at[k - 1]);
        }
        lemma_woven_laid(cells, at, text, k - 1, q);
        assert(now.drop_last() =~= past);
        assert(now.last() == q);
        assert(gaps(q) == before(q) + text);
        assert forall|i: int| 0 <= i < q implies #[trigger] gaps(i) == before(i) by {}
        lemma_laid_alike(cells, gaps, before, q);
        if q < p {
            lemma_laid_run(cells, gaps, q, p - q);
            assert(gaps(p).len() == 0);
            assert(woven(cells, at, text, k, p) =~= laid(cells, gaps, p) + gaps(p));
        } else {
            assert(cells.subrange(q, p) =~= Seq::<Cell>::empty());
            assert(woven(cells, at, text, k, p) =~= laid(cells, gaps, p) + gaps(p));
        }
    } else {
        assert(gaps(p).len() == 0);
        if p > 0 {
            lemma_laid_run(cells, gaps, 0, p);
            assert(gaps(0).len() == 0);
        }
        assert(woven(cells, at, text, k, p) =~= laid(cells, gaps, p) + gaps(p));
    }
}

/// What is laid out depends on what lies before the cells in question alone.
proof fn lemma_laid_alike(cells: Seq<Cell>, f: Gaps, g: Gaps, p: int)
    requires
        forall|i: int| 0 <= i < p ==> #[trigger] f(i) == g(i),
    ensures
        laid(cells, f, p) == laid(cells, g, p),
    decreases p,
{
    if p > 0 {
        lemma_laid_alike(cells, f, g, p - 1);
        assert(f(p - 1) == g(p - 1));
    }
}

pub proof fn lemma_edited_laid(
    cells: Seq<Cell>,
    plan: Plan,
    timestamp: InsertionTimestamp,
    text: Seq<u8>,
)
    requires
        rising(plan.at),
        within(plan.at, cells.len() as int),
    ensures
        edited(cells, plan, timestamp, text) == laid_out(
            touched(cells, plan, local_of(timestamp)),
            text_at(plan.at, inserted_cells(timestamp, text)),
        ),
{
    let m = touched(cells, plan, local_of(timestamp));
    let n = plan.at.len() as int;
    if n > 0 {
        assert(0 <= plan.at[n - 1] <= cells.len());
    }
    lemma_woven_laid(m, plan.at, inserted_cells(timestamp, text), n, cells.len() as int);
    assert(plan.at.take(n) =~= plan.at);
}

/// Where the cells before `i` end.
pub open spec fn low(cells: Seq<Cell>, gaps: Gaps, i: int) -> int {
    laid(cells, gaps, i).len() as int
}

/// Where cell `i` stands.
pub open spec fn high(cells: Seq<Cell>, gaps: Gaps, i: int) -> int {
    low(cells, gaps, i) + gaps(i).len()
}

pub proof fn lemma_low_grows(cells: Seq<Cell>, gaps: Gaps, i: int, j: int)
    requires
        0 <= i <= j,
    ensures
        i <= low(cells, gaps, i),
        low(cells, gaps, i) + (j - i) <= low(cells, gaps, j),
        i < j ==> high(cells, gaps, i) < low(cells, gaps, j),
    decreases j,
{
    if j > 0 {
        if i < j {
            lemma_low_grows(cells, gaps, i, j - 1);
        } else {
            lemma_low_grows(cells, gaps, i - 1, j - 1);
        }
    }
}

/// What has been laid out stays as it is while more is.
proof fn lemma_laid_prefix(cells: Seq<Cell>, gaps: Gaps, i: int, j: int)
    requires
        0 <= i <= j,
    ensures
        low(cells, gaps, i) <= low(cells, gaps, j),
        laid(cells, gaps, j).subrange(0, low(cells, gaps, i)) == laid(cells, gaps, i),
    decreases j,
{
    lemma_low_grows(cells, gaps, i, j);
    if i < j {
        lemma_laid_prefix(cells, gaps, i, j - 1);
        let a = laid(cells, gaps, j - 1);
        let b = laid(cells, gaps, j);
        assert(b.subrange(0, low(cells, gaps, i)) =~= a.subrange(0, low(cells, gaps, i)));
    } else {
        assert(laid(cells, gaps, i).subrange(0, low(cells, gaps, i)) =~= laid(cells, gaps, i));
    }
}

/// Where what is laid out stands.
pub proof fn lemma_laid_at(cells: Seq<Cell>, gaps: Gaps, i: int)
    requires
        0 <= i <= cells.len(),
    ensures
        0 <= low(cells, gaps, i) <= high(cells, gaps, i) <= laid_out(cells, gaps).len(),
        laid_out(cells, gaps).subrange(0, low(cells, gaps, i)) == laid(cells, gaps, i),
        laid_out(cells, gaps).subrange(low(cells, gaps, i), high(cells, gaps, i)) == gaps(i),
        i < cells.len() ==> high(cells, gaps, i) < laid_out(cells, gaps).len() && laid_out(
            cells,
            gaps,
        )[high(cells, gaps, i)] == cells[i] && low(cells, gaps, i + 1) == high(cells, gaps, i) + 1,
        i == cells.len() ==> high(cells, gaps, i) == laid_out(cells, gaps).len(),
{
    let n = cells.len() as int;
    let d = laid_out(cells, gaps);
    lemma_laid_prefix(cells, gaps, i, n);
    let full = laid(cells, gaps, n);
    assert(d.subrange(0, low(cells, gaps, i)) =~= full.subrange(0, low(cells, gaps, i)));
    if i < n {
        lemma_laid_prefix(cells, gaps, i + 1, n);
        let next = laid(cells, gaps, i + 1);
        assert(next == full.subrange(0, low(cells, gaps, i + 1)));
        let h = high(cells, gaps, i);
        assert(d[h] == full[h]);
        assert(full[h] == next[h]);
        assert(d.subrange(low(cells, gaps, i), h) =~= next.subrange(low(cells, gaps, i), h));
        assert(next.subrange(low(cells, gaps, i), h) =~= gaps(i));
    } else {
        assert(d.subrange(low(cells, gaps, i), high(cells, gaps, i)) =~= gaps(i));
    }
}

/// What lies in the gaps has not been seen.
pub open spec fn unseen(gaps: Gaps, v: Version, n: int) -> bool {
    forall|i: int, j: int|
        0 <= i <= n && 0 <= j < gaps(i).len() ==> !observes(
            v,
            local_of((#[trigger] gaps(i)[j]).timestamp),
        )
}

/// A run of unseen cells leaves the rank as it is.
proof fn lemma_rank_run(d: Seq<Cell>, v: Version, x: int, n: int)
    requires
        0 <= x,
        0 <= n,
        x + n <= d.len(),
        forall|j: int|
            x <= j < x + n ==> !observes(v, local_of((#[trigger] d[j]).timestamp)),
    ensures
        seen_rank(d, v, x + n) == seen_rank(d, v, x),
    decreases n,
{
    if n > 0 {
        lemma_rank_run(d, v, x, n - 1);
        assert(!observes(v, local_of(d[x + n - 1].timestamp)));
    }
}

/// What a version had seen before a place is what it had seen before that place
/// in the text without the gaps.
pub proof fn lemma_rank_laid(base: Seq<Cell>, cells: Seq<Cell>, gaps: Gaps, v: Version, i: int)
    requires
        0 <= i <= cells.len(),
        base.len() == cells.len(),
        forall|k: int|
            0 <= k < cells.len() ==> (#[trigger] cells[k]).timestamp == base[k].timestamp,
        unseen(gaps, v, cells.len() as int),
    ensures
        seen_rank(laid_out(cells, gaps), v, low(cells, gaps, i)) == seen_rank(base, v, i),
        seen_rank(laid_out(cells, gaps), v, high(cells, gaps, i)) == seen_rank(base, v, i),
    decreases i,
{
    let d = laid_out(cells, gaps);
    lemma_laid_at(cells, gaps, i);
    if i > 0 {
        lemma_rank_laid(base, cells, gaps, v, i - 1);
        lemma_laid_at(cells, gaps, i - 1);
        assert(cells[i - 1].timestamp == base[i - 1].timestamp);
    }
    let x = low(cells, gaps, i);
    let n = gaps(i).len() as int;
    assert forall|j: int| x <= j < x + n implies !observes(
        v,
        local_of((#[trigger] d[j]).timestamp),
    ) by {
        assert(d.subrange(x, x + n)[j - x] == gaps(i)[j - x]);
    }
    lemma_rank_run(d, v, x, n);
}

/// A place in what a version had seen, found in the text with the gaps.
pub proof fn lemma_seek_laid(base: Seq<Cell>, cells: Seq<Cell>, gaps: Gaps, v: Version, offset: int)
    requires
        base.len() == cells.len(),
        forall|k: int|
            0 <= k < cells.len() ==> (#[trigger] cells[k]).timestamp == base[k].timestamp,
        unseen(gaps, v, cells.len() as int),
        0 <= offset <= seen_rank(base, v, base.len() as int),
    ensures
        seek(laid_out(cells, gaps), v, offset) == low(cells, gaps, seek(base, v, offset)),
{
    let d = laid_out(cells, gaps);
    lemma_seek(base, v, offset);
    let s = seek(base, v, offset);
    lemma_rank_laid(base, cells, gaps, v, s);
    lemma_laid_at(cells, gaps, s);
    if s > 0 {
        lemma_rank_laid(base, cells, gaps, v, s - 1);
        lemma_laid_at(cells, gaps, s - 1);
        assert(seen_rank(base, v, s - 1) < offset);
    }
    lemma_seek_is(d, v, offset, 0, low(cells, gaps, s));
}

/// A run of newer cells is passed.
proof fn lemma_skip_run(d: Seq<Cell>, lamport: Lamport, x: int, n: int)
    requires
        0 <= x,
        0 <= n,
        x + n <= d.len(),
        forall|j: int|
            x <= j < x + n ==> after(lamport_of((#[trigger] d[j]).timestamp), lamport),
    ensures
        skip_newer(d, lamport, x) == skip_newer(d, lamport, x + n),
    decreases n,
{
    if n > 0 {
        assert(after(lamport_of(d[x].timestamp), lamport));
        lemma_skip_run(d, lamport, x + 1, n - 1);
    }
}

/// All the cells in the gaps were made at the same time.
pub open spec fn made_at(gaps: Gaps, lamport: Lamport, n: int) -> bool {
    forall|i: int, j: int|
        0 <= i <= n && 0 <= j < gaps(i).len() ==> lamport_of(
            (#[trigger] gaps(i)[j]).timestamp,
        ) == lamport
}

/// Passing newer cells in the text with the gaps: gaps that are newer too are
/// passed on the way and at the end; there is no older one on the way.
proof fn lemma_skip_laid(
    base: Seq<Cell>,
    cells: Seq<Cell>,
    gaps: Gaps,
    made: Lamport,
    lamport: Lamport,
    s: int,
)
    requires
        base.len() == cells.len(),
        forall|k: int|
            0 <= k < cells.len() ==> (#[trigger] cells[k]).timestamp == base[k].timestamp,
        made_at(gaps, made, cells.len() as int),
        0 <= s <= cells.len(),
        !after(made, lamport) ==> forall|i: int|
            s <= i < skip_newer(base, lamport, s) ==> #[trigger] gaps(i).len() == 0,
    ensures
        skip_newer(laid_out(cells, gaps), lamport, low(cells, gaps, s)) == if after(
            made,
            lamport,
        ) {
            high(cells, gaps, skip_newer(base, lamport, s))
        } else {
            low(cells, gaps, skip_newer(base, lamport, s))
        },
    decreases base.len() - s,
{
    let d = laid_out(cells, gaps);
    let x = low(cells, gaps, s);
    let h = high(cells, gaps, s);
    lemma_laid_at(cells, gaps, s);
    lemma_skip_stops(base, lamport, s);
    let newer = s < base.len() && after(lamport_of(base[s].timestamp), lamport);
    assert forall|j: int| x <= j < h implies lamport_of((#[trigger] d[j]).timestamp) == made by {
        assert(d.subrange(x, h)[j - x] == gaps(s)[j - x]);
    }
    if after(made, lamport) {
        lemma_skip_run(d, lamport, x, h - x);
    } else if !newer && h > x {
        assert(lamport_of(d[x].timestamp) == made);
    } else if newer {
        assert(gaps(s).len() == 0);
    }
    if newer {
        assert(cells[s].timestamp == base[s].timestamp);
        assert(d[h] == cells[s]);
        lemma_skip_laid(base, cells, gaps, made, lamport, s + 1);
    } else if s < base.len() {
        assert(cells[s].timestamp == base[s].timestamp);
    }
}

/// Laying out a run that has nothing in it but what lies before its first cell.
proof fn lemma_laid_run(d: Seq<Cell>, gaps: Gaps, x: int, n: int)
    requires
        0 <= x,
        0 < n,
        x + n <= d.len(),
        forall|j: int| x < j < x + n ==> #[trigger] gaps(j).len() == 0,
    ensures
        laid(d, gaps, x + n) == laid(d, gaps, x) + gaps(x) + d.subrange(x, x + n),
    decreases n,
{
    if n == 1 {
        assert(d.subrange(x, x + 1) =~= seq![d[x]]);
    } else {
        lemma_laid_run(d, gaps, x, n - 1);
        assert(gaps(x + n - 1).len() == 0);
        assert(d.subrange(x, x + n) =~= d.subrange(x, x + n - 1).push(d[x + n - 1]));
        let a = laid(d, gaps, x) + gaps(x);
        assert(laid(d, gaps, x + n) =~= a + d.subrange(x, x + n - 1) + gaps(x + n - 1) + seq![
            d[x + n - 1],
        ]);
        assert(laid(d, gaps, x + n) =~= a + d.subrange(x, x + n));
    }
}

/// What lies before each cell if the gaps are filled in two steps.
pub open spec fn fills(cells: Seq<Cell>, first: Gaps, second: Gaps, both: Gaps, i: int) -> bool {
    let x = low(cells, first, i);
    let h = high(cells, first, i);
    &&& both(i) == if x == h {
        second(x)
    } else {
        second(x) + first(i) + second(h)
    }
    &&& forall|j: int| x < j < h ==> #[trigger] second(j).len() == 0
}

proof fn lemma_laid_twice_upto(
    cells: Seq<Cell>,
    first: Gaps,
    second: Gaps,
    both: Gaps,
    i: int,
)
    requires
        0 <= i <= cells.len(),
        forall|k: int| 0 <= k <= cells.len() ==> #[trigger] fills(cells, first, second, both, k),
    ensures
        laid(laid_out(cells, first), second, low(cells, first, i)) == laid(cells, both, i),
        laid(laid_out(cells, first), second, high(cells, first, i)) + second(
            high(cells, first, i),
        ) == laid(cells, both, i) + both(i),
    decreases i,
{
    let d = laid_out(cells, first);
    let x = low(cells, first, i);
    let h = high(cells, first, i);
    lemma_laid_at(cells, first, i);
    if i > 0 {
        lemma_laid_twice_upto(cells, first, second, both, i - 1);
        lemma_laid_at(cells, first, i - 1);
        let y = high(cells, first, i - 1);
        assert(x == y + 1);
        assert(laid(d, second, x) == laid(d, second, y) + second(y) + seq![d[y]]);
        assert(laid(cells, both, i) == laid(cells, both, i - 1) + both(i - 1) + seq![cells[i - 1]]);
    }
    assert(fills(cells, first, second, both, i));
    if x < h {
        lemma_laid_run(d, second, x, h - x);
        assert(laid(d, second, h) + second(h) =~= laid(d, second, x) + (second(x) + first(i)
            + second(h)));
    }
}

/// Filling the gaps in two steps fills them.
proof fn lemma_laid_twice(cells: Seq<Cell>, first: Gaps, second: Gaps, both: Gaps)
    requires
        forall|k: int| 0 <= k <= cells.len() ==> #[trigger] fills(cells, first, second, both, k),
    ensures
        laid_out(laid_out(cells, first), second) == laid_out(cells, both),
{
    lemma_laid_twice_upto(cells, first, second, both, cells.len() as int);
    lemma_laid_at(cells, first, cells.len() as int);
}

/// Where things stand depends on the sizes alone.
proof fn lemma_low_same(a: Seq<Cell>, b: Seq<Cell>, gaps: Gaps, i: int)
    ensures
        low(a, gaps, i) == low(b, gaps, i),
        high(a, gaps, i) == high(b, gaps, i),
    decreases i,
{
    if i > 0 {
        lemma_low_same(a, b, gaps, i - 1);
    }
}

/// What stands at a place: a cell, or something before it.
pub proof fn lemma_stands(cells: Seq<Cell>, gaps: Gaps, x: int, n: int) -> (i: int)
    requires
        0 <= n <= cells.len(),
        0 <= x < high(cells, gaps, n),
    ensures
        0 <= i <= n,
        low(cells, gaps, i) <= x <= high(cells, gaps, i),
        x == high(cells, gaps, i) ==> i < n,
    decreases n,
{
    if x >= low(cells, gaps, n) {
        n
    } else {
        lemma_laid_at(cells, gaps, n - 1);
        if x == high(cells, gaps, n - 1) {
            n - 1
        } else {
            lemma_stands(cells, gaps, x, n - 1)
        }
    }
}

/// What an edit does to a document in which it names places.
pub open spec fn plan_of(cells: Seq<Cell>, log: UndoLog, e: EditModel) -> Plan {
    plain_plan(cells, log, e.version, lamport_of(e.timestamp), e.ranges)
}

/// A document after an edit.
pub open spec fn edit_done(cells: Seq<Cell>, log: UndoLog, e: EditModel) -> Seq<Cell> {
    edited(cells, plan_of(cells, log, e), e.timestamp, bytes_of(e.new_text))
}

/// The edit names places of the document.
pub open spec fn placed_in(cells: Seq<Cell>, e: EditModel) -> bool {
    placed(cells, e.version, lamport_of(e.timestamp), e.ranges)
}

/// The edit was made without the other one having been seen.
pub open spec fn unaware(e: EditModel, other: EditModel) -> bool {
    !observes(e.version, local_of(other.timestamp))
}

/// The text that an edit inserts.
pub open spec fn new_cells(e: EditModel) -> Seq<Cell> {
    inserted_cells(e.timestamp, bytes_of(e.new_text))
}

/// Where the text of an edit goes.
pub open spec fn gaps_of(cells: Seq<Cell>, log: UndoLog, e: EditModel) -> Gaps {
    text_at(plan_of(cells, log, e).at, new_cells(e))
}

/// The cells, with what an edit does to them but for its text.
pub open spec fn marked(cells: Seq<Cell>, log: UndoLog, e: EditModel) -> Seq<Cell> {
    touched(cells, plan_of(cells, log, e), local_of(e.timestamp))
}

pub proof fn lemma_places(cells: Seq<Cell>, log: UndoLog, e: EditModel)
    requires
        placed_in(cells, e),
    ensures
        rising(plan_of(cells, log, e).at),
        within(plan_of(cells, log, e).at, cells.len() as int),
        edit_done(cells, log, e) == laid_out(marked(cells, log, e), gaps_of(cells, log, e)),
        forall|i: int, j: int|
            0 <= j < gaps_of(cells, log, e)(i).len() ==> {
                let c = #[trigger] gaps_of(cells, log, e)(i)[j];
                &&& c.timestamp == e.timestamp
                &&& c.visible
                &&& c.deletions == Set::<Local>::empty()
            },
{
    let v = e.version;
    let lamport = lamport_of(e.timestamp);
    let at = plan_of(cells, log, e).at;
    assert forall|k: int| 0 <= k < at.len() implies 0 <= #[trigger] at[k] <= cells.len()
        && seen_rank(cells, v, at[k]) == e.ranges[k].0 by {
        lemma_remote_range(cells, v, lamport, e.ranges, k);
    }
    assert forall|j: int, k: int| 0 <= j < k < at.len() implies #[trigger] at[j]
        <= #[trigger] at[k] by {
        assert(e.ranges[j].0 <= e.ranges[j].1);
        assert(e.ranges[j].1 <= e.ranges[k].0);
        if e.ranges[j].0 < e.ranges[k].0 && at[k] < at[j] {
            lemma_seen_rank_grows(cells, v, at[k], at[j]);
        }
    }
    lemma_edited_laid(cells, plan_of(cells, log, e), e.timestamp, bytes_of(e.new_text));
    lemma_new_text(at, e.timestamp, bytes_of(e.new_text));
}

/// The facts about an edit `a` that another edit, which has not seen it, needs.
pub open spec fn made_before(cells: Seq<Cell>, log: UndoLog, a: EditModel, b: EditModel) -> bool {
    &&& placed_in(cells, a)
    &&& placed_in(cells, b)
    &&& unaware(b, a)
    &&& lamport_of(a.timestamp) != lamport_of(b.timestamp)
}

pub proof fn lemma_gaps_made(cells: Seq<Cell>, log: UndoLog, a: EditModel, b: EditModel)
    requires
        unaware(b, a),
    ensures
        unseen(gaps_of(cells, log, a), b.version, cells.len() as int),
        made_at(gaps_of(cells, log, a), lamport_of(a.timestamp), cells.len() as int),
        forall|i: int, j: int|
            0 <= j < gaps_of(cells, log, a)(i).len() ==> (#[trigger] gaps_of(cells, log, a)(
                i,
            )[j]).timestamp == a.timestamp && (j == 0 ==> gaps_of(cells, log, a)(i)[j].head),
        forall|i: int|
            !plan_of(cells, log, a).at.contains(i) ==> #[trigger] gaps_of(cells, log, a)(i).len()
                == 0,
{
    lemma_new_text(plan_of(cells, log, a).at, a.timestamp, bytes_of(a.new_text));
}

/// Where an edit goes in a document that holds one it has not seen.
pub open spec fn moved(
    cells: Seq<Cell>,
    log: UndoLog,
    a: EditModel,
    b: EditModel,
    i: int,
) -> int {
    if after(lamport_of(a.timestamp), lamport_of(b.timestamp)) {
        high(marked(cells, log, a), gaps_of(cells, log, a), i)
    } else {
        low(marked(cells, log, a), gaps_of(cells, log, a), i)
    }
}

/// Where a range of an edit goes in a document that holds one it has not seen.
proof fn lemma_moved(cells: Seq<Cell>, log: UndoLog, a: EditModel, b: EditModel, k: int)
    requires
        placed_in(cells, a),
        unaware(b, a),
        0 <= k < b.ranges.len(),
        0 <= b.ranges[k].0 <= b.ranges[k].1 <= seen_rank(cells, b.version, cells.len() as int),
    ensures
        0 <= plan_of(cells, log, b).at[k] <= cells.len(),
        plan_of(edit_done(cells, log, a), log, b).at[k] == moved(
            cells,
            log,
            a,
            b,
            plan_of(cells, log, b).at[k],
        ),
        plan_of(edit_done(cells, log, a), log, b).ends[k] == if b.ranges[k].0 == b.ranges[k].1 {
            moved(cells, log, a, b, plan_of(cells, log, b).ends[k])
        } else {
            low(
                marked(cells, log, a),
                gaps_of(cells, log, a),
                plan_of(cells, log, b).ends[k],
            )
        },
{
    let v = b.version;
    let la = lamport_of(a.timestamp);
    let lb = lamport_of(b.timestamp);
    let m = marked(cells, log, a);
    let g = gaps_of(cells, log, a);
    lemma_places(cells, log, a);
    lemma_gaps_made(cells, log, a, b);
    lemma_seek(cells, v, b.ranges[k].0);
    lemma_seek_laid(cells, m, g, v, b.ranges[k].0);
    lemma_seek_laid(cells, m, g, v, b.ranges[k].1);
    let s = seek(cells, v, b.ranges[k].0);
    lemma_skip_stops(cells, lb, s);
    if !after(la, lb) {
        assert forall|i: int| s <= i < skip_newer(cells, lb, s) implies #[trigger] g(i).len()
            == 0 by {
            let at = plan_of(cells, log, a).at;
            lemma_gaps_made(cells, log, a, b);
            if at.contains(i) {
                let j = at.index_of(i);
                lemma_remote_range(cells, a.version, la, a.ranges, j);
                lemma_skip_stops(cells, la, seek(cells, a.version, a.ranges[j].0));
                assert(after(lamport_of(cells[i].timestamp), lb));
            }
        }
    }
    lemma_skip_laid(cells, m, g, la, lb, s);
}

/// An edit still names places of a document that holds one it has not seen.
proof fn lemma_still_placed(cells: Seq<Cell>, log: UndoLog, a: EditModel, b: EditModel)
    requires
        made_before(cells, log, a, b),
    ensures
        placed_in(edit_done(cells, log, a), b),
{
    let v = b.version;
    let m = marked(cells, log, a);
    let g = gaps_of(cells, log, a);
    let d = edit_done(cells, log, a);
    lemma_places(cells, log, a);
    lemma_gaps_made(cells, log, a, b);
    lemma_laid_at(m, g, m.len() as int);
    lemma_rank_laid(cells, m, g, v, m.len() as int);
    assert forall|k: int| 0 <= k < b.ranges.len() implies (#[trigger] b.ranges[k]).1
        <= seen_rank(d, v, d.len() as int) && clear(
        d,
        v,
        lamport_of(b.timestamp),
        b.ranges[k].0,
    ) by {
        lemma_moved(cells, log, a, b, k);
        lemma_rank_laid(cells, m, g, v, plan_of(cells, log, b).at[k]);
        let _ = plan_of(d, log, b).at[k];
    }
}

/// An edit that names places of a document that holds one it has not seen names
/// places of the document without that one.
pub proof fn lemma_placed_before(cells: Seq<Cell>, log: UndoLog, a: EditModel, b: EditModel)
    requires
        placed_in(cells, a),
        unaware(b, a),
        placed_in(edit_done(cells, log, a), b),
    ensures
        placed_in(cells, b),
{
    let v = b.version;
    let m = marked(cells, log, a);
    let g = gaps_of(cells, log, a);
    let d = edit_done(cells, log, a);
    lemma_places(cells, log, a);
    assert(unseen(g, v, m.len() as int));
    lemma_laid_at(m, g, m.len() as int);
    lemma_rank_laid(cells, m, g, v, m.len() as int);
    assert forall|k: int| 0 <= k < b.ranges.len() implies (#[trigger] b.ranges[k]).1
        <= seen_rank(cells, v, cells.len() as int) && clear(
        cells,
        v,
        lamport_of(b.timestamp),
        b.ranges[k].0,
    ) by {
        assert(0 <= b.ranges[k].0 <= b.ranges[k].1);
        lemma_moved(cells, log, a, b, k);
        lemma_rank_laid(cells, m, g, v, plan_of(cells, log, b).at[k]);
        let _ = plan_of(d, log, b).at[k];
    }
}

/// The cells, with what two edits do to them but for their texts.
pub open spec fn marked_twice(
    cells: Seq<Cell>,
    log: UndoLog,
    a: EditModel,
    b: EditModel,
) -> Seq<Cell> {
    touched(marked(cells, log, a), plan_of(cells, log, b), local_of(b.timestamp))
}

/// Two edits, both unaware of each other: the text of the newer one comes
/// first.
pub open spec fn gaps_twice(cells: Seq<Cell>, log: UndoLog, a: EditModel, b: EditModel) -> Gaps {
    |i: int|
        if after(lamport_of(a.timestamp), lamport_of(b.timestamp)) {
            gaps_of(cells, log, a)(i) + gaps_of(cells, log, b)(i)
        } else {
            gaps_of(cells, log, b)(i) + gaps_of(cells, log, a)(i)
        }
}

/// What the second edit cuts and hides among the cells.
proof fn lemma_second_marks(cells: Seq<Cell>, log: UndoLog, a: EditModel, b: EditModel, i: int)
    requires
        made_before(cells, log, a, b),
        0 <= i < cells.len(),
    ensures
        ({
            let h = high(marked(cells, log, a), gaps_of(cells, log, a), i);
            let second = plan_of(edit_done(cells, log, a), log, b);
            let alone = plan_of(cells, log, b);
            &&& second.hits.contains(h) == alone.hits.contains(i)
            &&& marked(cells, log, a)[i].head || second.cut(h) == alone.cut(i)
        }),
{
    let v = b.version;
    let m = marked(cells, log, a);
    let g = gaps_of(cells, log, a);
    let d = edit_done(cells, log, a);
    let h = high(m, g, i);
    let second = plan_of(d, log, b);
    let alone = plan_of(cells, log, b);
    lemma_places(cells, log, a);
    lemma_places(cells, log, b);
    lemma_gaps_made(cells, log, a, b);
    lemma_laid_at(m, g, i);
    lemma_rank_laid(cells, m, g, v, i);
    assert(d[h] == m[i]);
    assert(cell_shown_at(m[i], v, log) == cell_shown_at(cells[i], v, log)) by {
        let id = local_of(a.timestamp);
        assert(!observes(v, id));
        if cell_shown_at(cells[i], v, log) {
            assert forall|del: Local| #[trigger] m[i].deletions.contains(del) implies !observes(
                v,
                del,
            ) || crate::undo_map::undone_at(log, del, v) by {
                if del != id {
                    assert(cells[i].deletions.contains(del));
                }
            }
        }
        if cell_shown_at(m[i], v, log) {
            assert forall|del: Local| #[trigger] cells[i].deletions.contains(del) implies !observes(
                v,
                del,
            ) || crate::undo_map::undone_at(log, del, v) by {
                assert(m[i].deletions.contains(del));
            }
        }
    }
    if second.at.contains(h) {
        let k = second.at.index_of(h);
        lemma_moved(cells, log, a, b, k);
        lemma_place_back(cells, log, a, b, alone.at[k], i);
        assert(alone.at[k] == i);
        assert(alone.cut(i));
    }
    if second.ends.contains(h) {
        let k = second.ends.index_of(h);
        lemma_moved(cells, log, a, b, k);
        lemma_remote_range(cells, v, lamport_of(b.timestamp), b.ranges, k);
        lemma_place_back(cells, log, a, b, alone.ends[k], i);
        assert(alone.ends[k] == i);
        assert(alone.cut(i));
    }
    if alone.cut(i) && !m[i].head {
        assert(!plan_of(cells, log, a).at.contains(i));
        assert(g(i).len() == 0);
        if alone.at.contains(i) {
            let k = alone.at.index_of(i);
            lemma_moved(cells, log, a, b, k);
            assert(second.at[k] == h);
            assert(second.cut(h));
        } else {
            let k = alone.ends.index_of(i);
            lemma_moved(cells, log, a, b, k);
            assert(second.ends[k] == h);
            assert(second.cut(h));
        }
    }
}

/// A place that moves to where cell `i` stands is that of cell `i`.
proof fn lemma_place_back(
    cells: Seq<Cell>,
    log: UndoLog,
    a: EditModel,
    b: EditModel,
    j: int,
    i: int,
)
    requires
        placed_in(cells, a),
        0 <= i < cells.len(),
        0 <= j <= cells.len(),
    ensures
        ({
            let m = marked(cells, log, a);
            let g = gaps_of(cells, log, a);
            &&& moved(cells, log, a, b, j) == high(m, g, i) ==> j == i
            &&& low(m, g, j) == high(m, g, i) ==> j == i
        }),
{
    let m = marked(cells, log, a);
    let g = gaps_of(cells, log, a);
    if j < i {
        lemma_low_grows(m, g, j, i);
    } else if i < j {
        lemma_low_grows(m, g, i, j);
    }
}

/// The second of two edits leaves the text of the first as it is.
proof fn lemma_second_spares(
    cells: Seq<Cell>,
    log: UndoLog,
    a: EditModel,
    b: EditModel,
    i: int,
    x: int,
)
    requires
        made_before(cells, log, a, b),
        0 <= i <= cells.len(),
        low(marked(cells, log, a), gaps_of(cells, log, a), i) <= x < high(
            marked(cells, log, a),
            gaps_of(cells, log, a),
            i,
        ),
    ensures
        marked(edit_done(cells, log, a), log, b)[x] == edit_done(cells, log, a)[x],
{
    let v = b.version;
    let m = marked(cells, log, a);
    let g = gaps_of(cells, log, a);
    let d = edit_done(cells, log, a);
    let y = low(m, g, i);
    let h = high(m, g, i);
    let second = plan_of(d, log, b);
    let alone = plan_of(cells, log, b);
    lemma_places(cells, log, a);
    lemma_places(cells, log, b);
    lemma_gaps_made(cells, log, a, b);
    lemma_laid_at(m, g, i);
    assert(d.subrange(y, h)[x - y] == g(i)[x - y]);
    assert(!second.hits.contains(x));
    if x > y {
        if second.at.contains(x) {
            let k = second.at.index_of(x);
            lemma_moved(cells, log, a, b, k);
            lemma_place_apart(cells, log, a, alone.at[k], i);
        }
        if second.ends.contains(x) {
            let k = second.ends.index_of(x);
            lemma_moved(cells, log, a, b, k);
            lemma_remote_range(cells, v, lamport_of(b.timestamp), b.ranges, k);
            lemma_place_apart(cells, log, a, alone.ends[k], i);
        }
        assert(!second.cut(x));
    } else {
        assert(d[x].head);
    }
    assert(marked(d, log, b)[x] =~= d[x]);
}

/// No place moves into the text before cell `i`.
proof fn lemma_place_apart(cells: Seq<Cell>, log: UndoLog, a: EditModel, j: int, i: int)
    requires
        0 <= i <= cells.len(),
        0 <= j <= cells.len(),
    ensures
        ({
            let m = marked(cells, log, a);
            let g = gaps_of(cells, log, a);
            &&& low(m, g, j) <= low(m, g, i) || low(m, g, j) >= high(m, g, i)
            &&& high(m, g, j) <= low(m, g, i) || high(m, g, j) >= high(m, g, i)
        }),
{
    let m = marked(cells, log, a);
    let g = gaps_of(cells, log, a);
    if j < i {
        lemma_low_grows(m, g, j, i);
    } else if i < j {
        lemma_low_grows(m, g, i, j);
    }
}

/// The cells of a document that holds the first edit, with what the second one
/// does to them.
proof fn lemma_marked_second(cells: Seq<Cell>, log: UndoLog, a: EditModel, b: EditModel)
    requires
        made_before(cells, log, a, b),
    ensures
        marked(edit_done(cells, log, a), log, b) == laid_out(
            marked_twice(cells, log, a, b),
            gaps_of(cells, log, a),
        ),
{
    let m = marked(cells, log, a);
    let g = gaps_of(cells, log, a);
    let d = edit_done(cells, log, a);
    let e = marked(d, log, b);
    let both = marked_twice(cells, log, a, b);
    let f = laid_out(both, g);
    let n = cells.len() as int;
    lemma_places(cells, log, a);
    lemma_laid_at(m, g, n);
    lemma_laid_at(both, g, n);
    lemma_low_same(m, both, g, n);
    assert forall|x: int| 0 <= x < d.len() implies e[x] == f[x] by {
        let i = lemma_stands(m, g, x, n);
        lemma_laid_at(m, g, i);
        lemma_laid_at(both, g, i);
        lemma_low_same(m, both, g, i);
        let y = low(m, g, i);
        let h = high(m, g, i);
        if x < h {
            lemma_second_spares(cells, log, a, b, i, x);
            assert(d.subrange(y, h)[x - y] == g(i)[x - y]);
            assert(f.subrange(y, h)[x - y] == g(i)[x - y]);
        } else {
            lemma_second_marks(cells, log, a, b, i);
            assert(d[x] == m[i]);
            assert(f[x] == both[i]);
            assert(e[x] =~= both[i]);
        }
    }
    assert(e =~= f);
}

/// Places that are named alike are named as often.
proof fn lemma_same_times(a: Seq<int>, b: Seq<int>, x: int, y: int)
    requires
        a.len() == b.len(),
        forall|k: int| 0 <= k < a.len() ==> (#[trigger] a[k] == x) == (b[k] == y),
    ensures
        times_at(a, x) == times_at(b, y),
    decreases a.len(),
{
    if a.len() > 0 {
        assert((a[a.len() - 1] == x) == (b[a.len() - 1] == y));
        lemma_same_times(a.drop_last(), b.drop_last(), x, y);
    }
}

/// What lies before each cell once the second edit has been made.
proof fn lemma_second_gaps(cells: Seq<Cell>, log: UndoLog, a: EditModel, b: EditModel, i: int)
    requires
        made_before(cells, log, a, b),
        0 <= i <= cells.len(),
    ensures
        fills(
            marked_twice(cells, log, a, b),
            gaps_of(cells, log, a),
            gaps_of(edit_done(cells, log, a), log, b),
            gaps_twice(cells, log, a, b),
            i,
        ),
{
    let m = marked(cells, log, a);
    let g = gaps_of(cells, log, a);
    let d = edit_done(cells, log, a);
    let both = marked_twice(cells, log, a, b);
    let second = plan_of(d, log, b);
    let alone = plan_of(cells, log, b);
    lemma_low_same(m, both, g, i);
    lemma_places(cells, log, b);
    let x = low(m, g, i);
    let h = high(m, g, i);
    let to = moved(cells, log, a, b, i);
    // The text goes to one place before cell `i`, if it goes there at all.
    assert forall|k: int| 0 <= k < second.at.len() implies {
        &&& (#[trigger] second.at[k] == to) == (alone.at[k] == i)
        &&& x <= second.at[k] <= h ==> alone.at[k] == i
    } by {
        lemma_moved(cells, log, a, b, k);
        let p = alone.at[k];
        assert(0 <= p <= cells.len());
        if p < i {
            lemma_low_grows(m, g, p, i);
        } else if i < p {
            lemma_low_grows(m, g, i, p);
        }
    }
    let gb = gaps_of(d, log, b);
    lemma_same_times(second.at, alone.at, to, i);
    assert(gb(to) == gaps_of(cells, log, b)(i));
    assert forall|j: int| x <= j <= h && j != to implies #[trigger] gb(j).len() == 0 by {
        lemma_times_at(second.at, j);
        if second.at.contains(j) {
            let k = second.at.index_of(j);
            assert(second.at[k] == j);
        }
    }
    assert(gb(x).len() == 0 || x == to);
    assert(gb(h).len() == 0 || h == to);
    let both_gaps = gaps_twice(cells, log, a, b);
    if x == h {
        assert(g(i) =~= Seq::<Cell>::empty());
        assert(both_gaps(i) =~= gb(x));
    } else {
        assert(both_gaps(i) =~= gb(x) + g(i) + gb(h));
    }
}

/// A document after two edits, the second unaware of the first.
proof fn lemma_two_edits(cells: Seq<Cell>, log: UndoLog, a: EditModel, b: EditModel)
    requires
        made_before(cells, log, a, b),
    ensures
        placed_in(edit_done(cells, log, a), b),
        edit_done(edit_done(cells, log, a), log, b) == laid_out(
            marked_twice(cells, log, a, b),
            gaps_twice(cells, log, a, b),
        ),
{
    let d = edit_done(cells, log, a);
    let both = marked_twice(cells, log, a, b);
    let g = gaps_of(cells, log, a);
    lemma_still_placed(cells, log, a, b);
    lemma_places(d, log, b);
    lemma_marked_second(cells, log, a, b);
    assert forall|k: int| 0 <= k <= both.len() implies #[trigger] fills(
        both,
        g,
        gaps_of(d, log, b),
        gaps_twice(cells, log, a, b),
        k,
    ) by {
        lemma_second_gaps(cells, log, a, b, k);
    }
    lemma_laid_twice(both, g, gaps_of(d, log, b), gaps_twice(cells, log, a, b));
}

proof fn lemma_laid_same(a: Seq<Cell>, b: Seq<Cell>, f: Gaps, g: Gaps, p: int)
    requires
        0 <= p <= a.len(),
        a == b,
        forall|i: int| 0 <= i <= a.len() ==> #[trigger] f(i) == g(i),
    ensures
        laid(a, f, p) == laid(b, g, p),
    decreases p,
{
    if p > 0 {
        lemma_laid_same(a, b, f, g, p - 1);
        assert(f(p - 1) == g(p - 1));
    }
}

/// Two edits that were made without knowing of each other give the same
/// document in whichever order they are applied.
pub proof fn law_concurrent_edits_commute(
    cells: Seq<Cell>,
    log: UndoLog,
    a: EditModel,
    b: EditModel,
)
    requires
        placed_in(cells, a),
        placed_in(cells, b),
        unaware(a, b),
        unaware(b, a),
        lamport_of(a.timestamp) != lamport_of(b.timestamp),
    ensures
        placed_in(edit_done(cells, log, a), b),
        placed_in(edit_done(cells, log, b), a),
        edit_done(edit_done(cells, log, a), log, b) == edit_done(
            edit_done(cells, log, b),
            log,
            a,
        ),
{
    lemma_two_edits(cells, log, a, b);
    lemma_two_edits(cells, log, b, a);
    let x = marked_twice(cells, log, a, b);
    let y = marked_twice(cells, log, b, a);
    assert forall|i: int| 0 <= i < cells.len() implies x[i] == y[i] by {
        assert(x[i].deletions =~= y[i].deletions);
    }
    assert(x =~= y);
    let f = gaps_twice(cells, log, a, b);
    let g = gaps_twice(cells, log, b, a);
    let n = cells.len() as int;
    assert forall|i: int| 0 <= i <= n implies #[trigger] f(i) == g(i) by {}
    lemma_laid_same(x, y, f, g, n);
    assert(f(n) == g(n));
}

} // verus!
