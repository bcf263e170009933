//! Laws of transactions: undoing and redoing several edits at once.

use std::sync::Arc;

use vstd::prelude::*;

use crate::clock::{Lamport, Local, Version, observes, same_version};
use crate::converge::{
    Gaps, growing, high, laid_out, lemma_edited_laid, lemma_laid_at, lemma_low_grows, lemma_once,
    lemma_stands, low, text_at, within,
};
use crate::document::{Cell, all_seen, seen_rank, visible_text};
use crate::edit_laws::{lemma_all_seen, lemma_same_visible};
use crate::fragment::{InsertionTimestamp, having_seen, lemma_having_seen, local_of, shown};
use crate::history::{
    TransactionModel, absorbed_ranges, ended_transaction, filing, grouped, grouped_len,
    merged_ranges, plus, shifted_ranges, transaction_ended, undo_pushed, with_edit, with_edits,
};
use crate::indent::AutoindentRequest;
use crate::local::{full_ranges, lemma_local_plan, lemma_local_range};
use crate::operation::{EditModel, SelectionSetId, bytes_of};
use crate::reach::{covers, dominated, ends_between, lemma_looked_at, seen};
use crate::state::{
    State, edit_applied, edit_operation, edited_within, next_count, next_counts, redone_once,
    started, undo_of, undone_once, undone_or_redone,
};
use crate::undo::{Undo, undo_applied, undo_touched};
use crate::undo_laws::{
    alike, boundary, can_edit, law_edit_keeps_settled, lemma_low_count, lemma_undo_settles,
    lemma_undone_now, settled, shows,
};
use crate::undo_map::{UndoLog, largest_count, log_with, undone, undone_at, undos_of};
use crate::weave::{
    Plan, cell_shown_at, edited, inserted_cells, local_at, local_end, local_ok, local_plan, touched,
};

verus! {

/// An edit of the visible text.
pub ghost struct Step {
    pub cells: Seq<Cell>,
    pub ranges: Seq<(int, int)>,
    pub timestamp: InsertionTimestamp,
    pub text: Seq<u8>,
}

/// The ranges lie in the text, in the order of their starts; each ends between
/// fragments, or reaches no further than one before it.
pub open spec fn in_sequence(cells: Seq<Cell>, list: Seq<(int, int)>) -> bool {
    &&& forall|l: int|
        0 <= l < list.len() ==> 0 <= (#[trigger] list[l]).0 < list[l].1 <= cells.len()
    &&& forall|l: int, k: int|
        0 <= l < k < list.len() ==> (#[trigger] list[l]).0 <= (#[trigger] list[k]).0
    &&& forall|l: int|
        0 <= l < list.len() ==> boundary(cells, (#[trigger] list[l]).1) || dominated(list, l)
}

proof fn lemma_push_range(cells: Seq<Cell>, list: Seq<(int, int)>, e: (int, int))
    requires
        in_sequence(cells, list),
        0 <= e.0 < e.1 <= cells.len(),
        forall|l: int| 0 <= l < list.len() ==> (#[trigger] list[l]).0 <= e.0,
        boundary(cells, e.1) || exists|k: int|
            0 <= k < list.len() && e.1 <= (#[trigger] list[k]).1,
    ensures
        in_sequence(cells, list.push(e)),
        forall|z: int| #[trigger]
            covers(list.push(e), z) <==> covers(list, z) || e.0 <= z < e.1,
{
    let now = list.push(e);
    assert forall|l: int| 0 <= l < now.len() implies boundary(cells, (#[trigger] now[l]).1)
        || dominated(now, l) by {
        if l < list.len() {
            assert(boundary(cells, list[l].1) || dominated(list, l));
            if dominated(list, l) {
                let k = choose|k: int| 0 <= k < l && list[l].1 <= (#[trigger] list[k]).1;
                assert(now[l].1 <= now[k].1);
            }
        } else if !boundary(cells, e.1) {
            let k = choose|k: int| 0 <= k < list.len() && e.1 <= (#[trigger] list[k]).1;
            assert(now[l].1 <= now[k].1);
        }
    }
    assert forall|z: int| #[trigger] covers(now, z) <==> covers(list, z) || e.0 <= z < e.1 by {
        if covers(now, z) {
            let l = choose|l: int| 0 <= l < now.len() && (#[trigger] now[l]).0 <= z < now[l].1;
            if l < list.len() {
                assert(list[l].0 <= z < list[l].1);
            }
        }
        if covers(list, z) {
            let l = choose|l: int| 0 <= l < list.len() && (#[trigger] list[l]).0 <= z < list[l].1;
            assert(now[l].0 <= z < now[l].1);
        }
        if e.0 <= z < e.1 {
            assert(now[list.len() as int].0 <= z < now[list.len() as int].1);
        }
    }
}

impl Step {
    /// The ranges are in order and lie between characters, and each of them
    /// does something.
    pub open spec fn ok(self) -> bool {
        &&& local_ok(self.cells, self.ranges, self.text)
        &&& forall|k: int|
            0 <= k < self.ranges.len() ==> (#[trigger] self.ranges[k]).0 < self.ranges[k].1
                || self.text.len() > 0
    }

    pub open spec fn plan(self) -> Plan {
        local_plan(self.cells, self.ranges)
    }

    pub open spec fn gaps(self) -> Gaps {
        text_at(self.plan().at, inserted_cells(self.timestamp, self.text))
    }

    pub open spec fn id(self) -> Local {
        local_of(self.timestamp)
    }

    pub open spec fn marked(self) -> Seq<Cell> {
        touched(self.cells, self.plan(), self.id())
    }

    pub open spec fn after(self) -> Seq<Cell> {
        edited(self.cells, self.plan(), self.timestamp, self.text)
    }

    pub open spec fn len(self) -> int {
        self.cells.len() as int
    }

    pub open spec fn m(self) -> int {
        self.ranges.len() as int
    }

    pub open spec fn n(self) -> int {
        self.text.len() as int
    }

    pub open spec fn at(self, k: int) -> int {
        local_at(self.cells, self.ranges, k)
    }

    pub open spec fn end(self, k: int) -> int {
        local_end(self.cells, self.ranges, k)
    }

    /// Where what comes before cell `c` starts.
    pub open spec fn lo(self, c: int) -> int {
        low(self.marked(), self.gaps(), c)
    }

    /// Where cell `c` stands after the edit.
    pub open spec fn hi(self, c: int) -> int {
        high(self.marked(), self.gaps(), c)
    }

    /// The ranges of the edit, as counted in all the text there is.
    pub open spec fn full(self) -> Seq<(int, int)> {
        full_ranges(self.cells, self.ranges)
    }

    pub proof fn lemma_basic(self)
        requires
            self.ok(),
        ensures
            growing(self.plan().at),
            within(self.plan().at, self.len()),
            self.after() == laid_out(self.marked(), self.gaps()),
            self.marked().len() == self.cells.len(),
            self.hi(self.len()) == self.after().len(),
            self.plan().at.len() == self.m(),
            forall|k: int|
                0 <= k < self.m() ==> 0 <= #[trigger] self.at(k) <= self.end(k) <= self.len()
                    && self.plan().at[k] == self.at(k) && self.plan().ends[k] == self.end(k)
                    && self.full()[k] == (self.at(k), self.end(k)),
            forall|j: int, k: int|
                0 <= j < k < self.m() ==> #[trigger] self.end(j) < #[trigger] self.at(k),
            self.len() + self.m() * self.n() < usize::MAX,
            inserted_cells(self.timestamp, self.text).len() == self.n(),
            forall|c: int| #[trigger]
                self.gaps()(c) == if self.plan().at.contains(c) {
                    inserted_cells(self.timestamp, self.text)
                } else {
                    Seq::empty()
                },
    {
        lemma_local_plan(self.cells, self.ranges, self.text);
        let at = self.plan().at;
        assert forall|k: int| 0 <= k < self.m() implies 0 <= #[trigger] self.at(k) <= self.end(k)
            <= self.len() && self.plan().at[k] == self.at(k) && self.plan().ends[k] == self.end(k)
            && self.full()[k] == (self.at(k), self.end(k)) by {
            lemma_local_range(self.cells, self.ranges, self.text, k);
        }
        assert forall|j: int, k: int| 0 <= j < k < self.m() implies #[trigger] self.end(j)
            < #[trigger] self.at(k) by {
            assert(local_end(self.cells, self.ranges, j) < local_at(self.cells, self.ranges, k));
        }
        assert forall|j: int, k: int| 0 <= j < k < at.len() implies #[trigger] at[j]
            < #[trigger] at[k] by {
            assert(self.at(j) <= self.end(j));
            assert(self.end(j) < self.at(k));
        }
        assert forall|k: int| 0 <= k < at.len() implies 0 <= #[trigger] at[k] <= self.len() by {
            assert(0 <= self.at(k) <= self.end(k));
        }
        lemma_edited_laid(self.cells, self.plan(), self.timestamp, self.text);
        assert forall|c: int| #[trigger]
            self.gaps()(c) == if self.plan().at.contains(c) {
                inserted_cells(self.timestamp, self.text)
            } else {
                Seq::empty()
            } by {
            lemma_once(at, inserted_cells(self.timestamp, self.text), c);
        }
        lemma_laid_at(self.marked(), self.gaps(), self.len());
    }

    /// Where a cell stands, if `k` of the texts come before it.
    proof fn lemma_hi(self, c: int, k: int)
        requires
            self.ok(),
            0 <= c <= self.len(),
            0 <= k <= self.m(),
            k > 0 ==> self.at(k - 1) <= c,
            k < self.m() ==> c < self.at(k),
        ensures
            self.hi(c) == c + k * self.n(),
    {
        self.lemma_basic();
        let at = self.plan().at;
        let t = inserted_cells(self.timestamp, self.text);
        if k > 0 && self.at(k - 1) == c {
            if k > 1 {
                assert(self.end(k - 2) < self.at(k - 1));
                assert(self.at(k - 2) <= self.end(k - 2));
            }
            lemma_low_count(self.marked(), at, t, k - 1, c);
            assert(at[k - 1] == c);
            assert(at.contains(c));
            assert(k * self.n() == (k - 1) * self.n() + self.n()) by (nonlinear_arith);
        } else {
            lemma_low_count(self.marked(), at, t, k, c);
            if at.contains(c) {
                let j = at.index_of(c);
                assert(at[j] == self.at(j));
                if j < k - 1 {
                    assert(self.at(j) <= self.end(j));
                    assert(self.end(j) < self.at(k - 1));
                } else if j > k {
                    assert(self.at(k) <= self.end(k));
                    assert(self.end(k) < self.at(j));
                }
            }
        }
    }

    /// How many of the texts come before a cell.
    proof fn lemma_count(self, c: int, m: int) -> (k: int)
        requires
            self.ok(),
            0 <= c <= self.len(),
            0 <= m <= self.m(),
            m < self.m() ==> c < self.at(m),
        ensures
            0 <= k <= m,
            k > 0 ==> self.at(k - 1) <= c,
            k < self.m() ==> c < self.at(k),
        decreases m,
    {
        if m > 0 && c < self.at(m - 1) {
            self.lemma_count(c, m - 1)
        } else {
            m
        }
    }

    proof fn lemma_at_grows(self, j: int, k: int)
        requires
            self.ok(),
            0 <= j <= k < self.m(),
        ensures
            self.at(j) <= self.at(k),
    {
        self.lemma_basic();
        if j < k {
            assert(self.at(j) <= self.end(j));
            assert(self.end(j) < self.at(k));
        }
    }

    proof fn lemma_hi_at_least(self, c: int, j: int)
        requires
            self.ok(),
            0 <= c <= self.len(),
            0 <= j <= self.m(),
            j > 0 ==> self.at(j - 1) <= c,
        ensures
            self.hi(c) >= c + j * self.n(),
    {
        let k = self.lemma_count(c, self.m());
        self.lemma_hi(c, k);
        if k < j {
            self.lemma_at_grows(k, j - 1);
        }
        assert(j * self.n() <= k * self.n()) by (nonlinear_arith)
            requires
                j <= k,
                0 <= self.n(),
        ;
    }

    proof fn lemma_hi_at_most(self, c: int, j: int)
        requires
            self.ok(),
            0 <= c <= self.len(),
            0 <= j <= self.m(),
            j < self.m() ==> c < self.at(j),
        ensures
            self.hi(c) <= c + j * self.n(),
    {
        let k = self.lemma_count(c, self.m());
        self.lemma_hi(c, k);
        if j < k {
            self.lemma_at_grows(j, k - 1);
        }
        assert(k * self.n() <= j * self.n()) by (nonlinear_arith)
            requires
                k <= j,
                0 <= self.n(),
        ;
    }

    /// Where a range of the edit starts and ends after it.
    proof fn lemma_own_range(self, k: int)
        requires
            self.ok(),
            0 <= k < self.m(),
        ensures
            self.lo(self.at(k)) == self.at(k) + k * self.n(),
            self.hi(self.end(k)) == self.end(k) + (k + 1) * self.n(),
            self.lo(self.at(k)) < self.hi(self.end(k)) <= self.after().len(),
            boundary(self.after(), self.hi(self.end(k))),
    {
        self.lemma_basic();
        let at = self.plan().at;
        let t = inserted_cells(self.timestamp, self.text);
        let a = self.at(k);
        let b = self.end(k);
        assert(0 <= a <= b <= self.len());
        if k > 0 {
            assert(self.at(k - 1) <= self.end(k - 1));
            assert(self.end(k - 1) < self.at(k));
        }
        lemma_low_count(self.marked(), at, t, k, a);
        if k + 1 < self.m() {
            assert(self.end(k) < self.at(k + 1));
        }
        self.lemma_hi(b, k + 1);
        assert((k + 1) * self.n() == k * self.n() + self.n()) by (nonlinear_arith);
        if a == b {
            lemma_local_range(self.cells, self.ranges, self.text, k);
            assert(self.ranges[k].0 < self.ranges[k].1 || self.text.len() > 0);
        }
        self.lemma_boundary(b);
        assert(self.plan().ends[k] == b);
        assert(self.plan().ends.contains(b));
        assert(self.plan().cut(b));
    }

    /// A place that starts a fragment, or is cut by the edit, starts one after
    /// it.
    proof fn lemma_boundary(self, c: int)
        requires
            self.ok(),
            0 <= c <= self.len(),
        ensures
            0 <= self.hi(c) <= self.after().len(),
            boundary(self.cells, c) || self.plan().cut(c) ==> boundary(self.after(), self.hi(c)),
    {
        self.lemma_basic();
        lemma_laid_at(self.marked(), self.gaps(), c);
        if 0 < c < self.len() {
            assert(self.after()[self.hi(c)] == self.marked()[c]);
        }
        if c == 0 && self.hi(0) > 0 && self.len() > 0 {
            // A text stands before the first cell, which is then cut off.
            assert(self.gaps()(0).len() > 0);
            assert(self.gaps()(0) != Seq::<Cell>::empty());
            assert(self.plan().at.contains(0));
            assert(self.plan().cut(0));
            assert(self.after()[self.hi(0)] == self.marked()[0]);
        }
    }

    /// What the first `i` of some earlier ranges held is in the list.
    pub open spec fn keeps(self, r: Seq<(int, int)>, done: Seq<(int, int)>, i: int) -> bool {
        forall|k: int, c: int|
            0 <= k < i && (#[trigger] r[k]).0 <= c < r[k].1 ==> covers(done, #[trigger] self.hi(c))
    }

    /// What the first `j` ranges of the edit touched is in the list.
    pub open spec fn adds(self, done: Seq<(int, int)>, j: int) -> bool {
        forall|k: int, z: int|
            0 <= k < j && self.lo(#[trigger] self.at(k)) <= z < self.hi(self.end(k)) ==> #[trigger] covers(
                done,
                z,
            )
    }

    /// What lies between a place and the last range of the edit that has been
    /// dealt with is in the list.
    pub open spec fn passed(self, done: Seq<(int, int)>, x: int, j: int) -> bool {
        j > 0 ==> forall|c: int|
            x <= c < self.at(j - 1) ==> covers(done, #[trigger] self.hi(c))
    }

    /// Earlier ranges have reached up to `top`, and so far has the edit been
    /// dealt with.
    pub open spec fn reached(
        self,
        r: Seq<(int, int)>,
        done: Seq<(int, int)>,
        i: int,
        j: int,
        top: int,
    ) -> bool {
        &&& j < self.m() ==> self.at(j) > top
        &&& j > 0 ==> self.at(j - 1) <= top
        &&& forall|k: int| 0 <= k < i ==> (#[trigger] r[k]).1 <= top
        &&& i > 0 ==> exists|l: int|
            0 <= l < done.len() && top + j * self.n() <= (#[trigger] done[l]).1
        &&& i == 0 ==> j == 0 && top < 0
    }

    /// Nothing in the list starts after a place.
    pub open spec fn starts_by(done: Seq<(int, int)>, x: int) -> bool {
        forall|l: int| 0 <= l < done.len() ==> (#[trigger] done[l]).0 <= x
    }

    /// The first `i` earlier ranges and the first `j` ranges of the edit have
    /// been brought together in a list.
    pub open spec fn merging(
        self,
        r: Seq<(int, int)>,
        done: Seq<(int, int)>,
        i: int,
        j: int,
        top: int,
    ) -> bool {
        &&& 0 <= i <= r.len()
        &&& 0 <= j <= self.m()
        &&& in_sequence(self.after(), done)
        &&& self.keeps(r, done, i)
        &&& self.adds(done, j)
        &&& self.reached(r, done, i, j, top)
        &&& i < r.len() ==> self.passed(done, r[i].0, j) && Self::starts_by(
            done,
            r[i].0 + j * self.n(),
        )
        &&& j < self.m() ==> Self::starts_by(done, self.at(j) + j * self.n())
    }

    /// All the ranges have been brought together in a list.
    pub open spec fn merged(self, r: Seq<(int, int)>, done: Seq<(int, int)>) -> bool {
        &&& in_sequence(self.after(), done)
        &&& self.keeps(r, done, r.len() as int)
        &&& self.adds(done, self.m())
    }

    /// Sums stay small.
    proof fn lemma_small(self, x: int, j: int)
        requires
            self.ok(),
            0 <= x <= self.len(),
            0 <= j <= self.m(),
        ensures
            0 <= j * self.n(),
            0 <= x + j * self.n() < usize::MAX,
            plus(x, j * self.n()) == x + j * self.n(),
            (j + 1) * self.n() == j * self.n() + self.n(),
            j < self.m() ==> x + j * self.n() + self.n() < usize::MAX,
    {
        self.lemma_basic();
        let n = self.n();
        let m = self.m();
        assert(0 <= j * n <= m * n) by (nonlinear_arith)
            requires
                0 <= j <= m,
                0 <= n,
        ;
        assert((j + 1) * n == j * n + n) by (nonlinear_arith);
        if j < m {
            assert((j + 1) * n <= m * n) by (nonlinear_arith)
                requires
                    j + 1 <= m,
                    0 <= n,
            ;
        }
    }

    /// One more range of the edit goes into the list by itself.
    proof fn lemma_add_own(self, r: Seq<(int, int)>, done: Seq<(int, int)>, j: int)
        requires
            self.ok(),
            0 <= j < self.m(),
            in_sequence(self.after(), done),
            self.adds(done, j),
            Self::starts_by(done, self.at(j) + j * self.n()),
        ensures
            ({
                let now = done.push(
                    (self.at(j) + j * self.n(), self.end(j) + (j + 1) * self.n()),
                );
                &&& in_sequence(self.after(), now)
                &&& self.adds(now, j + 1)
                &&& forall|z: int| #[trigger] covers(done, z) ==> covers(now, z)
            }),
    {
        self.lemma_own_range(j);
        let e = (self.at(j) + j * self.n(), self.end(j) + (j + 1) * self.n());
        self.lemma_basic();
        assert(0 <= self.at(j) <= self.end(j));
        self.lemma_small(self.at(j), j);
        lemma_push_range(self.after(), done, e);
        let now = done.push(e);
        assert forall|k: int, z: int|
            0 <= k < j + 1 && self.lo(#[trigger] self.at(k)) <= z < self.hi(
                self.end(k),
            ) implies #[trigger] covers(now, z) by {
            if k < j {
                assert(covers(done, z));
            }
        }
    }

    /// The ranges of the edit that are left, one by one.
    proof fn lemma_rest(self, r: Seq<(int, int)>, done: Seq<(int, int)>, j: int)
        requires
            self.ok(),
            0 <= j <= self.m(),
            in_sequence(self.after(), done),
            self.keeps(r, done, r.len() as int),
            self.adds(done, j),
            j < self.m() ==> Self::starts_by(done, self.at(j) + j * self.n()),
        ensures
            self.merged(
                r,
                done + shifted_ranges(self.full().skip(j), self.n(), j * self.n()),
            ),
        decreases self.m() - j,
    {
        let others = self.full().skip(j);
        let n = self.n();
        if j == self.m() {
            assert(others.len() == 0);
            assert(done + Seq::<(int, int)>::empty() =~= done);
        } else {
            self.lemma_basic();
            self.lemma_small(self.at(j), j);
            self.lemma_small(self.end(j), j);
            self.lemma_add_own(r, done, j);
            let e = (self.at(j) + j * n, self.end(j) + (j + 1) * n);
            let now = done.push(e);
            assert(others[0] == (self.at(j), self.end(j)));
            assert(others.drop_first() =~= self.full().skip(j + 1));
            assert(plus(j * n, n) == (j + 1) * n);
            assert(plus(plus(others[0].1, j * n), n) == e.1);
            if j + 1 < self.m() {
                self.lemma_at_grows(j, j + 1);
                assert(Self::starts_by(now, self.at(j + 1) + (j + 1) * n));
            }
            self.lemma_rest(r, now, j + 1);
            let rest = shifted_ranges(self.full().skip(j + 1), n, (j + 1) * n);
            assert(done + (seq![e] + rest) =~= now + rest);
        }
    }

    /// Earlier ranges and those of the edit, brought together.
    proof fn lemma_merged(
        self,
        r: Seq<(int, int)>,
        done: Seq<(int, int)>,
        i: int,
        j: int,
        top: int,
    )
        requires
            self.ok(),
            in_sequence(self.cells, r),
            self.merging(r, done, i, j, top),
        ensures
            self.merged(
                r,
                done + merged_ranges(r.skip(i), self.full().skip(j), self.n(), j * self.n()),
            ),
        decreases r.len() - i, 1int, self.m() - j,
    {
        let n = self.n();
        if i == r.len() {
            assert(r.skip(i).len() == 0);
            self.lemma_rest(r, done, j);
        } else {
            let x = r[i].0;
            let y = r[i].1;
            assert(0 <= x < y <= self.len());
            self.lemma_small(x, j);
            self.lemma_small(y, j);
            assert(r.skip(i)[0] == r[i]);
            assert(r.skip(i).drop_first() =~= r.skip(i + 1));
            if y > top {
                assert(boundary(self.cells, y)) by {
                    if dominated(r, i) {
                        let k = choose|k: int| 0 <= k < i && r[i].1 <= (#[trigger] r[k]).1;
                        assert(r[k].1 <= top);
                    }
                }
            }
            self.lemma_absorbed(r, done, i, j, top, x + j * n, y, false);
        }
    }

    /// An earlier range that is being brought together with ranges of the edit.
    pub open spec fn absorbing(
        self,
        r: Seq<(int, int)>,
        done: Seq<(int, int)>,
        i: int,
        j: int,
        top: int,
        p: int,
        y: int,
        joined: bool,
    ) -> bool {
        &&& 0 <= i < r.len()
        &&& 0 <= j <= self.m()
        &&& in_sequence(self.after(), done)
        &&& self.keeps(r, done, i)
        &&& Self::starts_by(done, p)
        &&& j < self.m() ==> Self::starts_by(done, self.at(j) + j * self.n())
        &&& 0 <= p < y + j * self.n()
        &&& r[i].1 <= y <= self.len()
        &&& forall|k: int| 0 <= k < i ==> (#[trigger] r[k]).1 <= top
        &&& if y <= top {
            &&& !joined
            &&& j < self.m() ==> self.at(j) > top
            &&& exists|l: int|
                0 <= l < done.len() && top + j * self.n() <= (#[trigger] done[l]).1
            &&& j > 0 ==> self.at(j - 1) <= top
        } else {
            &&& boundary(self.cells, y) || self.plan().cut(y)
            &&& j > 0 ==> self.at(j - 1) <= y
            &&& !joined && j < self.m() ==> self.at(j) > top
        }
        &&& if joined {
            &&& j > 0
            &&& p <= self.at(j - 1) + (j - 1) * self.n()
            &&& forall|k: int, z: int|
                0 <= k < j && self.lo(#[trigger] self.at(k)) <= z < self.hi(
                    self.end(k),
                ) ==> #[trigger] covers(done, z) || p <= z < y + j * self.n()
            &&& forall|c: int|
                r[i].0 <= c < y ==> covers(done, #[trigger] self.hi(c)) || p <= self.hi(c)
            &&& p <= r[i].0 + j * self.n()
        } else {
            &&& y == r[i].1
            &&& p == r[i].0 + j * self.n()
            &&& self.adds(done, j)
            &&& self.passed(done, r[i].0, j)
        }
    }

    proof fn lemma_absorbed(
        self,
        r: Seq<(int, int)>,
        done: Seq<(int, int)>,
        i: int,
        j: int,
        top: int,
        p: int,
        y: int,
        joined: bool,
    )
        requires
            self.ok(),
            in_sequence(self.cells, r),
            self.absorbing(r, done, i, j, top, p, y, joined),
        ensures
            self.merged(
                r,
                done + absorbed_ranges(
                    (p, y + j * self.n()),
                    r.skip(i + 1),
                    self.full().skip(j),
                    self.n(),
                    j * self.n(),
                ),
            ),
        decreases r.len() - i, 0int, self.m() - j,
    {
        let n = self.n();
        let q = y + j * n;
        let others = self.full().skip(j);
        self.lemma_basic();
        self.lemma_small(y, j);
        if j < self.m() {
            self.lemma_small(self.at(j), j);
            self.lemma_small(self.end(j), j);
            assert(others[0] == (self.at(j), self.end(j)));
            assert(others.drop_first() =~= self.full().skip(j + 1));
        } else {
            assert(others.len() == 0);
        }
        if j < self.m() && self.at(j) + j * n <= q {
            let e = (self.at(j) + j * n, self.end(j) + (j + 1) * n);
            assert(plus(j * n, n) == (j + 1) * n);
            if self.end(j) + j * n < p {
                self.lemma_apart(r, done, i, j, top, p, y, joined);
                let now = done.push(e);
                self.lemma_small(r[i].0, j + 1);
                self.lemma_absorbed(r, now, i, j + 1, top, p + n, y, false);
                let rest = absorbed_ranges(
                    (p + n, q + n),
                    r.skip(i + 1),
                    self.full().skip(j + 1),
                    n,
                    (j + 1) * n,
                );
                assert(done + (seq![e] + rest) =~= now + rest);
            } else {
                let start = if self.at(j) + j * n < p {
                    self.at(j) + j * n
                } else {
                    p
                };
                let end = if self.end(j) > y {
                    self.end(j)
                } else {
                    y
                };
                self.lemma_joined(r, done, i, j, top, p, y, joined);
                self.lemma_small(end, j);
                self.lemma_absorbed(r, done, i, j + 1, top, start, end, true);
            }
        } else {
            self.lemma_closed(r, done, i, j, top, p, y, joined);
            let now = done.push((p, q));
            let reach = if y > top {
                y
            } else {
                top
            };
            self.lemma_merged(r, now, i + 1, j, reach);
            let rest = merged_ranges(r.skip(i + 1), others, n, j * n);
            assert(done + (seq![(p, q)] + rest) =~= now + rest);
        }
    }

    /// A range of the edit that lies before the earlier range.
    #[verifier::rlimit(50)]
    proof fn lemma_apart(
        self,
        r: Seq<(int, int)>,
        done: Seq<(int, int)>,
        i: int,
        j: int,
        top: int,
        p: int,
        y: int,
        joined: bool,
    )
        requires
            self.ok(),
            in_sequence(self.cells, r),
            self.absorbing(r, done, i, j, top, p, y, joined),
            j < self.m(),
            self.at(j) + j * self.n() <= y + j * self.n(),
            self.end(j) + j * self.n() < p,
        ensures
            !joined,
            self.absorbing(
                r,
                done.push((self.at(j) + j * self.n(), self.end(j) + (j + 1) * self.n())),
                i,
                j + 1,
                top,
                p + self.n(),
                y,
                false,
            ),
    {
        let n = self.n();
        self.lemma_basic();
        self.lemma_small(self.at(j), j);
        self.lemma_small(self.at(j), j + 1);
        if joined {
            self.lemma_at_grows(j - 1, j);
            assert((j - 1) * n <= j * n) by (nonlinear_arith)
                requires
                    0 <= n,
            ;
            assert(self.at(j) <= self.end(j));
        }
        assert(y > top);
        self.lemma_add_own(r, done, j);
        let e = (self.at(j) + j * n, self.end(j) + (j + 1) * n);
        let now = done.push(e);
        assert(self.at(j) <= self.end(j));
        assert(self.end(j) < r[i].0);
        assert forall|k: int, c: int|
            0 <= k < i && (#[trigger] r[k]).0 <= c < r[k].1 implies covers(
            now,
            #[trigger] self.hi(c),
        ) by {
            assert(covers(done, self.hi(c)));
        }
        if j + 1 < self.m() {
            assert(self.end(j) < self.at(j + 1));
            self.lemma_small(self.at(j + 1), j + 1);
            assert(Self::starts_by(now, self.at(j + 1) + (j + 1) * n));
        }
        assert(Self::starts_by(now, p + n));
        assert(self.passed(now, r[i].0, j + 1));
    }

    /// A range of the edit that touches the earlier range.
    #[verifier::rlimit(50)]
    proof fn lemma_joined(
        self,
        r: Seq<(int, int)>,
        done: Seq<(int, int)>,
        i: int,
        j: int,
        top: int,
        p: int,
        y: int,
        joined: bool,
    )
        requires
            self.ok(),
            in_sequence(self.cells, r),
            self.absorbing(r, done, i, j, top, p, y, joined),
            j < self.m(),
            self.at(j) + j * self.n() <= y + j * self.n(),
            self.end(j) + j * self.n() >= p,
        ensures
            ({
                let start = if self.at(j) + j * self.n() < p {
                    self.at(j) + j * self.n()
                } else {
                    p
                };
                let end = if self.end(j) > y {
                    self.end(j)
                } else {
                    y
                };
                self.absorbing(r, done, i, j + 1, top, start, end, true)
            }),
    {
        let n = self.n();
        let start = if self.at(j) + j * n < p {
            self.at(j) + j * n
        } else {
            p
        };
        let end = if self.end(j) > y {
            self.end(j)
        } else {
            y
        };
        self.lemma_basic();
        self.lemma_small(self.at(j), j);
        self.lemma_small(self.end(j), j);
        self.lemma_small(y, j);
        self.lemma_own_range(j);
        assert(y > top);
        assert(0 <= self.at(j) <= self.end(j));
        if self.end(j) > y {
            assert(self.plan().ends[j] == end);
            assert(self.plan().ends.contains(end));
        }
        if j + 1 < self.m() {
            self.lemma_at_grows(j, j + 1);
            assert(Self::starts_by(done, self.at(j + 1) + (j + 1) * n));
        }
        assert((j + 1 - 1) * n == j * n);
        assert(start <= self.at(j) + (j + 1 - 1) * n);
        assert forall|k: int, z: int|
            0 <= k < j + 1 && self.lo(#[trigger] self.at(k)) <= z < self.hi(
                self.end(k),
            ) implies #[trigger] covers(done, z) || start <= z < end + (j + 1) * n by {
            if k < j {
                if !joined {
                    assert(covers(done, z));
                }
            }
        }
        assert forall|c: int| r[i].0 <= c < end implies covers(done, #[trigger] self.hi(c))
            || start <= self.hi(c) by {
            if joined && c < y {
                assert(covers(done, self.hi(c)) || p <= self.hi(c));
            } else if joined {
                self.lemma_hi_at_least(c, j);
                assert(r[i].0 + j * n <= c + j * n);
            } else {
                if j > 0 && c < self.at(j - 1) {
                    assert(covers(done, self.hi(c)));
                } else {
                    self.lemma_hi_at_least(c, j);
                }
            }
        }
        assert(start <= r[i].0 + (j + 1) * n);
    }

    /// An earlier range with which no more ranges of the edit are brought
    /// together.
    #[verifier::rlimit(50)]
    proof fn lemma_closed(
        self,
        r: Seq<(int, int)>,
        done: Seq<(int, int)>,
        i: int,
        j: int,
        top: int,
        p: int,
        y: int,
        joined: bool,
    )
        requires
            self.ok(),
            in_sequence(self.cells, r),
            self.absorbing(r, done, i, j, top, p, y, joined),
            j < self.m() ==> self.at(j) + j * self.n() > y + j * self.n(),
        ensures
            self.merging(
                r,
                done.push((p, y + j * self.n())),
                i + 1,
                j,
                if y > top {
                    y
                } else {
                    top
                },
            ),
    {
        let n = self.n();
        let q = y + j * n;
        let reach = if y > top {
            y
        } else {
            top
        };
        self.lemma_basic();
        self.lemma_small(y, j);
        self.lemma_hi_at_most(y, j);
        if y > top {
            self.lemma_hi_at_least(y, j);
            self.lemma_boundary(y);
            assert(boundary(self.after(), q));
        } else {
            let l = choose|l: int| 0 <= l < done.len() && top + j * n <= (#[trigger] done[l]).1;
            assert(q <= done[l].1);
            assert(done[l].1 <= self.after().len());
        }
        lemma_push_range(self.after(), done, (p, q));
        let now = done.push((p, q));
        // What the range holds is in the list.
        assert forall|c: int| r[i].0 <= c < y implies covers(now, #[trigger] self.hi(c)) by {
            self.lemma_hi_at_most(c, j);
            if !joined {
                if j > 0 && c < self.at(j - 1) {
                    assert(covers(done, self.hi(c)));
                } else {
                    self.lemma_hi_at_least(c, j);
                }
            } else {
                assert(covers(done, self.hi(c)) || p <= self.hi(c));
            }
        }
        assert forall|k: int, c: int|
            0 <= k < i + 1 && (#[trigger] r[k]).0 <= c < r[k].1 implies covers(
            now,
            #[trigger] self.hi(c),
        ) by {
            if k < i {
                assert(covers(done, self.hi(c)));
            }
        }
        assert forall|k: int, z: int|
            0 <= k < j && self.lo(#[trigger] self.at(k)) <= z < self.hi(
                self.end(k),
            ) implies #[trigger] covers(now, z) by {
            assert(covers(done, z) || p <= z < q);
        }
        assert(self.reached(r, now, i + 1, j, reach)) by {
            if y > top {
                assert(reach + j * n <= now[done.len() as int].1);
            } else {
                let l = choose|l: int|
                    0 <= l < done.len() && top + j * n <= (#[trigger] done[l]).1;
                assert(reach + j * n <= now[l].1);
            }
        }
        if i + 1 < r.len() {
            assert(r[i].0 <= r[i + 1].0);
            assert(p <= r[i].0 + j * n);
            assert(Self::starts_by(now, r[i + 1].0 + j * n));
            if j > 0 {
                assert forall|c: int| r[i + 1].0 <= c < self.at(j - 1) implies covers(
                    now,
                    #[trigger] self.hi(c),
                ) by {
                    if c < y {
                        assert(covers(now, self.hi(c)));
                    } else {
                        assert(y <= top);
                        assert(covers(done, self.hi(c)));
                    }
                }
            }
        }
        if j < self.m() {
            assert(Self::starts_by(now, self.at(j) + j * n));
        }
    }
}

/// Undoing looks at everything in its ranges.
proof fn lemma_undo_looks(cells: Seq<Cell>, v: Version, ranges: Seq<(int, int)>, i: int)
    requires
        all_seen(cells, v),
        in_sequence(cells, ranges),
        0 <= i < cells.len(),
        covers(ranges, i),
    ensures
        undo_touched(cells, v, ranges).contains(i),
{
    lemma_all_seen(cells, v, i);
    assert(observes(v, local_of(cells[i].timestamp)));
    assert forall|l: int| 0 <= l < ranges.len() implies ends_between(
        cells,
        v,
        (#[trigger] ranges[l]).1,
    ) || dominated(ranges, l) by {
        lemma_ends_between(cells, v, ranges[l].1);
    }
    lemma_looked_at(cells, v, ranges, i);
}

/// Where everything has been seen, a place between fragments is one in what has
/// been seen.
pub proof fn lemma_ends_between(cells: Seq<Cell>, v: Version, x: int)
    requires
        all_seen(cells, v),
        0 < x,
    ensures
        boundary(cells, x) ==> ends_between(cells, v, x),
{
    if boundary(cells, x) {
        assert forall|i: int|
            0 <= i < cells.len() && seen(cells[i], v) && #[trigger] seen_rank(cells, v, i)
                == x implies cells[i].head by {
            lemma_all_seen(cells, v, i);
        }
    }
}

/// The text that a log shows.
pub open spec fn text_by(cells: Seq<Cell>, log: UndoLog) -> Seq<u8>
    decreases cells.len(),
{
    if cells.len() == 0 {
        Seq::empty()
    } else if shown(cells.last().timestamp, cells.last().deletions, log) {
        text_by(cells.drop_last(), log).push(cells.last().byte)
    } else {
        text_by(cells.drop_last(), log)
    }
}

proof fn lemma_text_by(now: Seq<Cell>, cells: Seq<Cell>, log: UndoLog)
    requires
        alike(now, cells),
        shows(now, log),
    ensures
        visible_text(now) == text_by(cells, log),
    decreases now.len(),
{
    if now.len() > 0 {
        let n = now.len() - 1;
        assert(now[n].byte == cells[n].byte);
        assert(now[n].visible == shown(now[n].timestamp, now[n].deletions, log));
        let a = now.drop_last();
        let b = cells.drop_last();
        assert forall|i: int| 0 <= i < a.len() implies (#[trigger] a[i]).byte == b[i].byte
            && a[i].head == b[i].head && a[i].timestamp == b[i].timestamp && a[i].deletions
            == b[i].deletions by {
            assert(now[i].byte == cells[i].byte);
        }
        assert forall|i: int| 0 <= i < a.len() implies (#[trigger] a[i]).visible == shown(
            a[i].timestamp,
            a[i].deletions,
            log,
        ) by {
            assert(now[i].visible == shown(now[i].timestamp, now[i].deletions, log));
        }
        lemma_text_by(a, b, log);
    }
}

/// Cells that a log does not show add nothing to its text.
proof fn lemma_unshown(d: Seq<Cell>, log: UndoLog, a: int, b: int)
    requires
        0 <= a <= b <= d.len(),
        forall|j: int|
            a <= j < b ==> !shown((#[trigger] d[j]).timestamp, d[j].deletions, log),
    ensures
        text_by(d.take(b), log) == text_by(d.take(a), log),
    decreases b - a,
{
    if a < b {
        lemma_unshown(d, log, a, b - 1);
        assert(d.take(b).drop_last() =~= d.take(b - 1));
        assert(!shown(d[b - 1].timestamp, d[b - 1].deletions, log));
    }
}

impl Step {
    /// Where the edit is undone, it changes nothing of what is shown.
    proof fn lemma_undone_text(self, log: UndoLog, i: int)
        requires
            self.ok(),
            undone(log, self.id()),
            0 <= i <= self.len(),
        ensures
            0 <= self.hi(i) <= self.after().len(),
            text_by(self.after().take(self.hi(i)), log) == text_by(self.cells.take(i), log),
        decreases i,
    {
        let m = self.marked();
        let g = self.gaps();
        let d = self.after();
        self.lemma_basic();
        lemma_laid_at(m, g, i);
        let x = self.lo(i);
        let h = self.hi(i);
        assert forall|j: int| x <= j < h implies !shown(
            (#[trigger] d[j]).timestamp,
            d[j].deletions,
            log,
        ) by {
            assert(d.subrange(x, h)[j - x] == g(i)[j - x]);
        }
        lemma_unshown(d, log, x, h);
        if i > 0 {
            self.lemma_undone_text(log, i - 1);
            lemma_laid_at(m, g, i - 1);
            assert(d.take(x).drop_last() =~= d.take(x - 1));
            assert(self.cells.take(i).drop_last() =~= self.cells.take(i - 1));
            let c = self.cells[i - 1];
            let now = m[i - 1];
            assert(d[x - 1] == now);
            assert(shown(now.timestamp, now.deletions, log) == shown(
                c.timestamp,
                c.deletions,
                log,
            )) by {
                if shown(c.timestamp, c.deletions, log) {
                    assert forall|del: Local| #[trigger] now.deletions.contains(del) implies undone(
                        log,
                        del,
                    ) by {
                        if del != self.id() {
                            assert(c.deletions.contains(del));
                        }
                    }
                }
                if shown(now.timestamp, now.deletions, log) {
                    assert forall|del: Local| #[trigger] c.deletions.contains(del) implies undone(
                        log,
                        del,
                    ) by {
                        assert(now.deletions.contains(del));
                    }
                }
            }
        } else {
            assert(d.take(0) =~= Seq::<Cell>::empty());
            assert(self.cells.take(0) =~= Seq::<Cell>::empty());
        }
    }
}

/// An edit of the visible text: its ranges, its text, and the time at which it is
/// made.
pub type Change = (Seq<(int, int)>, Seq<char>, Lamport);

/// A buffer at another time: what it has told others of in between, such as
/// selections, has moved its clock on.
pub open spec fn at_time(s: State, lamport: Lamport) -> State {
    State { lamport_clock: lamport, ..s }
}

/// A buffer after some edits of its visible text, one after the other.
pub open spec fn edited_in_turn(s: State, changes: Seq<Change>) -> State
    decreases changes.len(),
{
    if changes.len() == 0 {
        s
    } else {
        let before = edited_in_turn(s, changes.drop_last());
        edited_within(at_time(before, changes.last().2), changes.last().0, changes.last().1)
    }
}

/// The operation of the last of some edits.
pub open spec fn last_operation(s: State, changes: Seq<Change>) -> EditModel {
    edit_operation(
        at_time(edited_in_turn(s, changes.drop_last()), changes.last().2),
        changes.last().0,
        changes.last().1,
    )
}

/// The names of the edits.
pub open spec fn names_in_turn(s: State, changes: Seq<Change>) -> Seq<Local>
    decreases changes.len(),
{
    if changes.len() == 0 {
        Seq::empty()
    } else {
        names_in_turn(s, changes.drop_last()).push(local_of(last_operation(s, changes).timestamp))
    }
}

/// The ranges that the edits have touched, as a transaction gathers them.
pub open spec fn ranges_in_turn(s: State, changes: Seq<Change>) -> Seq<(int, int)>
    decreases changes.len(),
{
    if changes.len() == 0 {
        Seq::empty()
    } else {
        let edit = last_operation(s, changes);
        merged_ranges(
            ranges_in_turn(s, changes.drop_last()),
            edit.ranges,
            bytes_of(edit.new_text).len() as int,
            0,
        )
    }
}

/// Each of the edits can be made when its turn comes.
pub open spec fn can_edit_in_turn(s: State, changes: Seq<Change>) -> bool
    decreases changes.len(),
{
    changes.len() > 0 ==> {
        &&& can_edit_in_turn(s, changes.drop_last())
        &&& can_edit(
            edited_in_turn(s, changes.drop_last()),
            changes.last().0,
            changes.last().1,
        )
    }
}

/// A transaction that holds the edits and nothing else.
pub open spec fn holds_edits(t: TransactionModel, s: State, changes: Seq<Change>) -> bool {
    &&& t.start == s.version
    &&& t.edits == names_in_turn(s, changes)
    &&& t.ranges == ranges_in_turn(s, changes)
}

/// One of the edits has inserted the cell or deleted it.
pub open spec fn theirs(c: Cell, names: Seq<Local>) -> bool {
    names.contains(local_of(c.timestamp)) || exists|d: Local| #[trigger]
        c.deletions.contains(d) && names.contains(d)
}

/// What holds after some edits of the visible text.
pub open spec fn gathered(s: State, changes: Seq<Change>) -> bool {
    let now = edited_in_turn(s, changes);
    let names = names_in_turn(s, changes);
    let ranges = ranges_in_turn(s, changes);
    &&& settled(now.cells, now.log, now.version)
    &&& now.log == s.log
    &&& now.replica_id == s.replica_id
    &&& now.local_clock.replica_id == s.local_clock.replica_id
    &&& now.local_clock.value == s.local_clock.value + changes.len()
    &&& names.len() == changes.len()
    &&& forall|k: int|
        0 <= k < names.len() ==> (#[trigger] names[k]).replica_id == s.local_clock.replica_id
            && names[k].value == s.local_clock.value + k
    &&& in_sequence(now.cells, ranges)
    &&& forall|x: int|
        0 <= x < now.cells.len() && theirs(#[trigger] now.cells[x], names) ==> covers(ranges, x)
    &&& forall|x: int|
        0 <= x < now.cells.len() && !names.contains(
            local_of((#[trigger] now.cells[x]).timestamp),
        ) ==> observes(s.version, local_of(now.cells[x].timestamp))
    &&& forall|x: int, d: Local|
        0 <= x < now.cells.len() && (#[trigger] now.cells[x]).deletions.contains(d)
            && !names.contains(d) ==> #[trigger] observes(s.version, d)
    &&& forall|x: int|
        0 <= x < now.cells.len() && theirs(#[trigger] now.cells[x], names) && !names.contains(
            local_of(now.cells[x].timestamp),
        ) ==> cell_shown_at(now.cells[x], s.version, s.log)
}

/// A name of one of the edits had not been seen before them.
proof fn lemma_new_name(s: State, changes: Seq<Change>, id: Local)
    requires
        gathered(s, changes),
        !observes(s.version, s.local_clock),
        names_in_turn(s, changes).contains(id),
    ensures
        !observes(s.version, id),
{
    let names = names_in_turn(s, changes);
    let k = names.index_of(id);
    assert(names[k].value == s.local_clock.value + k);
}

/// What one more edit does.
proof fn lemma_gathers(s: State, changes: Seq<Change>)
    requires
        settled(s.cells, s.log, s.version),
        !observes(s.version, s.local_clock),
        changes.len() > 0,
        gathered(s, changes.drop_last()),
        can_edit(
            edited_in_turn(s, changes.drop_last()),
            changes.last().0,
            changes.last().1,
        ),
    ensures
        gathered(s, changes),
{
    let past = changes.drop_last();
    let before = at_time(edited_in_turn(s, past), changes.last().2);
    let rg = changes.last().0;
    let tx = changes.last().1;
    let edit = edit_operation(before, rg, tx);
    let step = Step {
        cells: before.cells,
        ranges: rg,
        timestamp: edit.timestamp,
        text: bytes_of(edit.new_text),
    };
    let now = edited_in_turn(s, changes);
    let id = step.id();
    let names = names_in_turn(s, past);
    let all = names_in_turn(s, changes);
    let r = ranges_in_turn(s, past);
    let m = ranges_in_turn(s, changes);
    assert(step.ok());
    assert(now == edited_within(before, rg, tx));
    assert(now.cells == step.after());
    assert(id == before.local_clock);
    assert(all == names.push(id));
    law_edit_keeps_settled(before, rg, tx);
    step.lemma_basic();
    // The ranges.
    assert(edit.ranges == step.full());
    let none = Seq::<(int, int)>::empty();
    assert(step.full().skip(0) =~= step.full());
    assert(r.skip(0) =~= r);
    assert(0 * step.n() == 0);
    assert(step.merging(r, none, 0, 0, -1)) by {
        if step.m() > 0 {
            assert(0 <= step.at(0));
        }
    }
    step.lemma_merged(r, none, 0, 0, -1);
    assert(none + m =~= m);
    assert(step.merged(r, m));
    assert(!observes(before.version, id));
    assert forall|k: Local| #[trigger] all.contains(k) <==> names.contains(k) || k == id by {
        if all.contains(k) {
            let l = all.index_of(k);
            if l < names.len() {
                assert(names[l] == k);
            }
        }
        if names.contains(k) {
            let l = names.index_of(k);
            assert(all[l] == k);
        }
        assert(all[names.len() as int] == id);
    }
    assert forall|x: int| 0 <= x < now.cells.len() implies ({
        &&& theirs(#[trigger] now.cells[x], all) ==> covers(m, x)
        &&& !all.contains(local_of(now.cells[x].timestamp)) ==> observes(
            s.version,
            local_of(now.cells[x].timestamp),
        )
        &&& forall|d: Local|
            now.cells[x].deletions.contains(d) && !all.contains(d) ==> #[trigger] observes(
                s.version,
                d,
            )
        &&& theirs(now.cells[x], all) && !all.contains(local_of(now.cells[x].timestamp))
            ==> cell_shown_at(now.cells[x], s.version, s.log)
    }) by {
        lemma_gathers_cell(s, changes, step, x);
    }
    assert forall|k: int| 0 <= k < all.len() implies (#[trigger] all[k]).replica_id
        == s.local_clock.replica_id && all[k].value == s.local_clock.value + k by {
        if k < names.len() {
            assert(all[k] == names[k]);
        }
    }
}

#[verifier::spinoff_prover]
#[verifier::rlimit(90)]
proof fn lemma_gathers_cell(s: State, changes: Seq<Change>, step: Step, x: int)
    requires
        settled(s.cells, s.log, s.version),
        !observes(s.version, s.local_clock),
        changes.len() > 0,
        gathered(s, changes.drop_last()),
        step.ok(),
        step.cells == edited_in_turn(s, changes.drop_last()).cells,
        step.id() == edited_in_turn(s, changes.drop_last()).local_clock,
        !observes(edited_in_turn(s, changes.drop_last()).version, step.id()),
        step.merged(
            ranges_in_turn(s, changes.drop_last()),
            ranges_in_turn(s, changes),
        ),
        forall|k: Local| #[trigger]
            names_in_turn(s, changes).contains(k) <==> names_in_turn(
                s,
                changes.drop_last(),
            ).contains(k) || k == step.id(),
        0 <= x < step.after().len(),
    ensures
        ({
            let c = step.after()[x];
            let all = names_in_turn(s, changes);
            &&& theirs(c, all) ==> covers(ranges_in_turn(s, changes), x)
            &&& !all.contains(local_of(c.timestamp)) ==> observes(
                s.version,
                local_of(c.timestamp),
            )
            &&& forall|d: Local|
                c.deletions.contains(d) && !all.contains(d) ==> #[trigger] observes(s.version, d)
            &&& theirs(c, all) && !all.contains(local_of(c.timestamp)) ==> cell_shown_at(
                c,
                s.version,
                s.log,
            )
        }),
{
    let past = changes.drop_last();
    let before = edited_in_turn(s, past);
    let names = names_in_turn(s, past);
    let all = names_in_turn(s, changes);
    let r = ranges_in_turn(s, past);
    let list = ranges_in_turn(s, changes);
    let id = step.id();
    let m = step.marked();
    let g = step.gaps();
    step.lemma_basic();
    let i = lemma_stands(m, g, x, m.len() as int);
    lemma_laid_at(m, g, i);
    let y = step.lo(i);
    let h = step.hi(i);
    let c = step.after()[x];
    if x < h {
        assert(step.after().subrange(y, h)[x - y] == g(i)[x - y]);
        assert(c.timestamp == step.timestamp);
        let k = step.plan().at.index_of(i);
        assert(step.plan().at[k] == step.at(k));
        assert(step.at(k) == i);
        if step.end(k) > i {
            lemma_low_grows(m, g, i, step.end(k));
        }
        assert(step.lo(step.at(k)) <= x < step.hi(step.end(k)));
        assert(covers(list, x));
    } else {
        assert(c == m[i]);
        let b = before.cells[i];
        assert(c.timestamp == b.timestamp);
        assert(observes(before.version, local_of(b.timestamp)));
        assert(local_of(b.timestamp) != id);
        assert(!b.deletions.contains(id)) by {
            if b.deletions.contains(id) {
                assert(observes(before.version, id));
            }
        }
        if !names.contains(local_of(b.timestamp)) {
            assert(observes(s.version, local_of(before.cells[i].timestamp)));
        }
        assert forall|d: Local|
            c.deletions.contains(d) && !all.contains(d) implies #[trigger] observes(
            s.version,
            d,
        ) by {
            assert(before.cells[i].deletions.contains(d));
        }
        assert(!observes(s.version, id));
        if step.plan().hits.contains(i) {
            assert(step.plan().in_some_range(i)) by {
                lemma_local_plan(step.cells, step.ranges, step.text);
            }
            let k = choose|k: int|
                0 <= k < step.plan().at.len() && #[trigger] step.plan().at[k] <= i
                    < step.plan().ends[k];
            assert(0 <= step.at(k) <= step.end(k));
            if step.at(k) < i {
                lemma_low_grows(m, g, step.at(k), i);
            }
            lemma_low_grows(m, g, i, step.end(k));
            assert(step.lo(step.at(k)) <= x < step.hi(step.end(k)));
            assert(covers(list, x));
        }
        if theirs(c, all) && !step.plan().hits.contains(i) {
            assert(c.deletions == b.deletions);
            assert(theirs(b, names)) by {
                if !names.contains(local_of(b.timestamp)) {
                    let d = choose|d: Local| #[trigger]
                        c.deletions.contains(d) && all.contains(d);
                    assert(b.deletions.contains(d) && names.contains(d));
                }
            }
            assert(covers(r, i));
            let l = choose|l: int| 0 <= l < r.len() && (#[trigger] r[l]).0 <= i < r[l].1;
            assert(r[l].0 <= i < r[l].1);
            assert(covers(list, step.hi(i)));
        }
        if theirs(c, all) && !all.contains(local_of(c.timestamp)) {
            if theirs(before.cells[i], names) {
                assert(cell_shown_at(before.cells[i], s.version, s.log));
                assert forall|d: Local| #[trigger] c.deletions.contains(d) implies !observes(
                    s.version,
                    d,
                ) || undone_at(s.log, d, s.version) by {
                    if d != id {
                        assert(b.deletions.contains(d));
                    }
                }
            } else {
                // The edit has just hidden a cell that none of the others touched.
                assert(step.plan().hits.contains(i)) by {
                    if !step.plan().hits.contains(i) {
                        assert(c.deletions == b.deletions);
                    }
                }
                assert(b.visible);
                assert(before.cells[i].visible == shown(
                    before.cells[i].timestamp,
                    before.cells[i].deletions,
                    before.log,
                ));
                lemma_undone_now(s.cells, s.log, s.version, local_of(b.timestamp));
                assert forall|d: Local| #[trigger] c.deletions.contains(d) implies !observes(
                    s.version,
                    d,
                ) || undone_at(s.log, d, s.version) by {
                    if d != id {
                        assert(b.deletions.contains(d));
                        lemma_undone_now(s.cells, s.log, s.version, d);
                    }
                }
            }
        }
    }
}

pub proof fn lemma_gathered(s: State, changes: Seq<Change>)
    requires
        settled(s.cells, s.log, s.version),
        !observes(s.version, s.local_clock),
        can_edit_in_turn(s, changes),
    ensures
        gathered(s, changes),
    decreases changes.len(),
{
    if changes.len() > 0 {
        lemma_gathered(s, changes.drop_last());
        lemma_gathers(s, changes);
    } else {
        let names = names_in_turn(s, changes);
        assert forall|x: int| 0 <= x < s.cells.len() implies !theirs(
            #[trigger] s.cells[x],
            names,
        ) by {}
        assert forall|x: int, d: Local|
            0 <= x < s.cells.len() && (#[trigger] s.cells[x]).deletions.contains(
                d,
            ) implies #[trigger] observes(s.version, d) by {}
    }
}

/// Where all the edits are undone, what is shown is the text before them.
proof fn lemma_undone_in_turn(s: State, changes: Seq<Change>, log: UndoLog)
    requires
        settled(s.cells, s.log, s.version),
        !observes(s.version, s.local_clock),
        can_edit_in_turn(s, changes),
        forall|id: Local| #[trigger]
            names_in_turn(s, changes).contains(id) ==> undone(log, id),
    ensures
        text_by(edited_in_turn(s, changes).cells, log) == text_by(s.cells, log),
    decreases changes.len(),
{
    if changes.len() > 0 {
        let past = changes.drop_last();
        let before = edited_in_turn(s, past);
        let names = names_in_turn(s, past);
        let all = names_in_turn(s, changes);
        lemma_gathered(s, past);
        let edit = last_operation(s, changes);
        let step = Step {
            cells: before.cells,
            ranges: changes.last().0,
            timestamp: edit.timestamp,
            text: bytes_of(edit.new_text),
        };
        assert(all == names.push(step.id()));
        assert forall|id: Local| #[trigger] names.contains(id) implies undone(log, id) by {
            let l = names.index_of(id);
            assert(all[l] == id);
            assert(all.contains(id));
        }
        assert(all[names.len() as int] == step.id());
        assert(all.contains(step.id()));
        lemma_undone_in_turn(s, past, log);
        assert(step.ok());
        step.lemma_basic();
        step.lemma_undone_text(log, step.len());
        assert(step.after().take(step.after().len() as int) =~= step.after());
        assert(step.cells.take(step.len()) =~= step.cells);
    }
}

/// The logs agree but for some edits.
pub open spec fn agree_without(a: UndoLog, b: UndoLog, names: Seq<Local>) -> bool {
    forall|d: Local| !names.contains(d) ==> #[trigger] undos_of(a, d) == undos_of(b, d)
}

/// A cell that none of the edits touched is shown by both logs or by neither.
proof fn lemma_shown_without(c: Cell, a: UndoLog, b: UndoLog, names: Seq<Local>)
    requires
        agree_without(a, b, names),
        !theirs(c, names),
    ensures
        shown(c.timestamp, c.deletions, a) == shown(c.timestamp, c.deletions, b),
{
    assert(undos_of(a, local_of(c.timestamp)) == undos_of(b, local_of(c.timestamp)));
    assert forall|d: Local| c.deletions.contains(d) implies undone(a, d) == undone(b, d) by {
        assert(!names.contains(d));
        assert(undos_of(a, d) == undos_of(b, d));
    }
}

/// After an undo or a redo of the edits, what is shown is what the log says.
proof fn lemma_undo_shows_all(
    s: State,
    changes: Seq<Change>,
    before: Seq<Cell>,
    log: UndoLog,
    undo: Undo,
)
    requires
        settled(s.cells, s.log, s.version),
        !observes(s.version, s.local_clock),
        gathered(s, changes),
        alike(before, edited_in_turn(s, changes).cells),
        forall|x: int|
            0 <= x < before.len() && !theirs(#[trigger] before[x], names_in_turn(s, changes))
                ==> before[x].visible == shown(before[x].timestamp, before[x].deletions, s.log),
        agree_without(log, s.log, names_in_turn(s, changes)),
        undo.ranges == ranges_in_turn(s, changes),
        undo.version == s.version,
        forall|id: Local| #[trigger]
            undo.counts.contains_key(id) <==> names_in_turn(s, changes).contains(id),
    ensures
        alike(undo_applied(before, log, undo), edited_in_turn(s, changes).cells),
        shows(undo_applied(before, log, undo), log),
{
    let now = edited_in_turn(s, changes);
    let names = names_in_turn(s, changes);
    let v = having_seen(undo.version, undo.counts.dom());
    let after = undo_applied(before, log, undo);
    assert(all_seen(before, v)) by {
        assert forall|i: int| 0 <= i < before.len() implies observes(
            v,
            local_of((#[trigger] before[i]).timestamp),
        ) by {
            let id = local_of(now.cells[i].timestamp);
            assert(before[i].timestamp == now.cells[i].timestamp);
            if names.contains(id) {
                assert(undo.counts.contains_key(id));
            } else {
                assert(observes(s.version, local_of(now.cells[i].timestamp)));
            }
            lemma_having_seen(undo.version, undo.counts.dom(), id);
        }
    }
    assert(in_sequence(before, undo.ranges)) by {
        let r = undo.ranges;
        assert forall|l: int| 0 <= l < r.len() implies boundary(before, (#[trigger] r[l]).1)
            || dominated(r, l) by {
            assert(boundary(now.cells, r[l].1) || dominated(r, l));
            if 0 < r[l].1 < before.len() {
                assert(before[r[l].1].head == now.cells[r[l].1].head);
            }
        }
    }
    assert forall|x: int| 0 <= x < after.len() implies (#[trigger] after[x]).visible == shown(
        after[x].timestamp,
        after[x].deletions,
        log,
    ) by {
        let c = before[x];
        let d = now.cells[x];
        assert(c.timestamp == d.timestamp && c.deletions == d.deletions);
        if theirs(c, names) {
            assert(theirs(now.cells[x], names));
            assert(covers(undo.ranges, x));
            lemma_undo_looks(before, v, undo.ranges, x);
            if names.contains(local_of(c.timestamp)) {
                assert(undo.counts.contains_key(local_of(c.timestamp)));
            } else {
                assert(cell_shown_at(now.cells[x], s.version, s.log));
                assert(undos_of(log, local_of(c.timestamp)) == undos_of(
                    s.log,
                    local_of(c.timestamp),
                ));
                assert forall|del: Local| #[trigger] c.deletions.contains(del) implies !observes(
                    s.version,
                    del,
                ) || undone_at(log, del, s.version) by {
                    if names.contains(del) {
                        lemma_new_name(s, changes, del);
                    } else {
                        assert(undos_of(log, del) == undos_of(s.log, del));
                        assert(d.deletions.contains(del));
                    }
                }
                assert(cell_shown_at(c, s.version, log));
            }
        } else {
            lemma_shown_without(c, log, s.log, names);
        }
    }
}

/// The counts of an undo of some edits.
pub proof fn lemma_counts(log: UndoLog, names: Seq<Local>, n: int)
    requires
        0 <= n <= names.len(),
    ensures
        forall|id: Local| #[trigger]
            next_counts(log, names, n).contains_key(id) <==> names.take(n).contains(id),
        forall|id: Local| #[trigger]
            next_counts(log, names, n).contains_key(id) ==> next_counts(log, names, n)[id]
                == next_count(largest_count(undos_of(log, id))),
    decreases n,
{
    if n > 0 {
        lemma_counts(log, names, n - 1);
        let now = names.take(n);
        let past = names.take(n - 1);
        assert forall|id: Local| #[trigger] now.contains(id) <==> past.contains(id) || id
            == names[n - 1] by {
            if now.contains(id) {
                let k = now.index_of(id);
                if k < n - 1 {
                    assert(past[k] == id);
                }
            }
            if past.contains(id) {
                let k = past.index_of(id);
                assert(now[k] == id);
            }
            assert(now[n - 1] == names[n - 1]);
        }
        let a = next_counts(log, names, n - 1);
        let last = names[n - 1];
        let b = next_counts(log, names, n);
        assert(b == a.insert(last, next_count(largest_count(undos_of(log, last)))));
        assert forall|id: Local| #[trigger] b.contains_key(id) <==> now.contains(id) by {
            assert(a.contains_key(id) <==> past.contains(id));
        }
        assert forall|id: Local| #[trigger] b.contains_key(id) implies b[id] == next_count(
            largest_count(undos_of(log, id)),
        ) by {
            assert(a.contains_key(id) || id == last);
        }
    }
}

/// The log once some edits have been counted once more.
proof fn lemma_logged_all(log: UndoLog, undo_id: Local, names: Seq<Local>, past: u32)
    requires
        past < u32::MAX,
        forall|id: Local| #[trigger]
            names.contains(id) ==> largest_count(undos_of(log, id)) == past,
    ensures
        ({
            let counts = next_counts(log, names, names.len() as int);
            let after = log_with(log, undo_id, counts);
            &&& forall|id: Local| #[trigger] counts.contains_key(id) <==> names.contains(id)
            &&& agree_without(after, log, names)
            &&& forall|id: Local| #[trigger]
                names.contains(id) ==> largest_count(undos_of(after, id)) == past + 1
        }),
{
    let n = names.len() as int;
    lemma_counts(log, names, n);
    assert(names.take(n) =~= names);
    let counts = next_counts(log, names, n);
    let after = log_with(log, undo_id, counts);
    assert forall|d: Local| !names.contains(d) implies #[trigger] undos_of(after, d) == undos_of(
        log,
        d,
    ) by {
        assert(!counts.contains_key(d));
    }
    assert forall|id: Local| #[trigger] names.contains(id) implies largest_count(
        undos_of(after, id),
    ) == past + 1 by {
        assert(counts.contains_key(id));
        let before = undos_of(log, id);
        assert(undos_of(after, id) == before.push((undo_id, (past + 1) as u32)));
        assert(before.push((undo_id, (past + 1) as u32)).drop_last() =~= before);
    }
}

/// Undoing a transaction brings back the text as it was before its edits, and
/// redoing it the text as it was after them; both leave the buffer settled.
pub proof fn law_undo_restores_transaction(s: State, changes: Seq<Change>, t: TransactionModel)
    requires
        settled(s.cells, s.log, s.version),
        !observes(s.version, s.local_clock),
        can_edit_in_turn(s, changes),
        holds_edits(t, s, changes),
    ensures
        ({
            let edited = edited_in_turn(s, changes);
            let undone = undone_or_redone(edited, t);
            let redone = undone_or_redone(undone, t);
            &&& undone.text() == s.text()
            &&& redone.text() == edited.text()
            &&& settled(undone.cells, undone.log, undone.version)
            &&& settled(redone.cells, redone.log, redone.version)
        }),
{
    let now = edited_in_turn(s, changes);
    let names = names_in_turn(s, changes);
    lemma_gathered(s, changes);
    lemma_names_seen(s, changes);
    assert forall|id: Local| #[trigger] names.contains(id) implies undos_of(s.log, id) == Seq::<
        (Local, u32),
    >::empty() by {
        lemma_new_name(s, changes, id);
        if s.log.contains_key(id) {
            assert(observes(s.version, id));
        }
    }
    assert(alike(now.cells, now.cells));

    // Undo.
    let first = undo_of(now, t);
    lemma_logged_all(s.log, first.id, names, 0);
    let log = log_with(s.log, first.id, first.counts);
    assert forall|x: int| 0 <= x < now.cells.len() && !theirs(
        #[trigger] now.cells[x],
        names,
    ) implies now.cells[x].visible == shown(
        now.cells[x].timestamp,
        now.cells[x].deletions,
        s.log,
    ) by {}
    lemma_undo_shows_all(s, changes, now.cells, log, first);
    let back = undone_or_redone(now, t);
    assert(back.cells == undo_applied(now.cells, log, first));
    lemma_text_by(back.cells, now.cells, log);
    lemma_undo_settles(now.cells, s.log, now.version, back.cells, first.id, first.counts);
    assert forall|id: Local| #[trigger] names.contains(id) implies undone(log, id) by {
        assert(largest_count(undos_of(log, id)) == 1);
    }
    lemma_undone_in_turn(s, changes, log);
    lemma_text_before_edits(s, changes, log);

    // Redo.
    let second = undo_of(back, t);
    lemma_logged_all(log, second.id, names, 1);
    let again = log_with(log, second.id, second.counts);
    assert(agree_without(again, s.log, names)) by {
        assert forall|d: Local| !names.contains(d) implies #[trigger] undos_of(again, d)
            == undos_of(s.log, d) by {
            assert(undos_of(log, d) == undos_of(s.log, d));
        }
    }
    assert forall|x: int| 0 <= x < back.cells.len() && !theirs(
        #[trigger] back.cells[x],
        names,
    ) implies back.cells[x].visible == shown(
        back.cells[x].timestamp,
        back.cells[x].deletions,
        s.log,
    ) by {
        lemma_shown_without(back.cells[x], log, s.log, names);
    }
    lemma_undo_shows_all(s, changes, back.cells, again, second);
    let redone = undone_or_redone(back, t);
    assert(redone.cells == undo_applied(back.cells, again, second));
    assert(alike(redone.cells, back.cells)) by {
        assert forall|i: int| 0 <= i < redone.cells.len() implies (
        #[trigger] redone.cells[i]).byte == back.cells[i].byte && redone.cells[i].head
            == back.cells[i].head && redone.cells[i].timestamp == back.cells[i].timestamp
            && redone.cells[i].deletions == back.cells[i].deletions by {
            assert(back.cells[i].byte == now.cells[i].byte);
        }
    }
    assert forall|id: Local| #[trigger] second.counts.contains_key(id) implies observes(
        back.version,
        id,
    ) by {
        assert(observes(now.version, id));
    }
    lemma_undo_settles(back.cells, log, back.version, redone.cells, second.id, second.counts);
    assert forall|x: int| 0 <= x < now.cells.len() implies (#[trigger] redone.cells[x]).visible
        == now.cells[x].visible && redone.cells[x].byte == now.cells[x].byte by {
        let c = redone.cells[x];
        let d = now.cells[x];
        assert(c.byte == d.byte);
        assert(c.visible == shown(c.timestamp, c.deletions, again));
        assert(d.visible == shown(d.timestamp, d.deletions, s.log));
        assert(c.timestamp == d.timestamp && c.deletions == d.deletions);
        assert forall|id: Local| undone(again, id) == undone(s.log, id) by {
            if names.contains(id) {
                assert(largest_count(undos_of(again, id)) == 2);
            } else {
                assert(undos_of(again, id) == undos_of(s.log, id));
            }
        }
    }
    lemma_same_visible(redone.cells, now.cells);
}

/// The edits have been seen once they have been made.
pub proof fn lemma_names_seen(s: State, changes: Seq<Change>)
    ensures
        forall|id: Local| #[trigger]
            names_in_turn(s, changes).contains(id) ==> observes(
                edited_in_turn(s, changes).version,
                id,
            ),
    decreases changes.len(),
{
    if changes.len() > 0 {
        let past = changes.drop_last();
        lemma_names_seen(s, past);
        let names = names_in_turn(s, past);
        let all = names_in_turn(s, changes);
        assert forall|id: Local| #[trigger] all.contains(id) implies observes(
            edited_in_turn(s, changes).version,
            id,
        ) by {
            let k = all.index_of(id);
            if k < names.len() {
                assert(names[k] == id);
                assert(names.contains(id));
            }
        }
    }
}

/// The buffers have the same text, log and clock.
pub open spec fn same_text(a: State, b: State) -> bool {
    a.cells == b.cells && a.log == b.log && a.local_clock == b.local_clock
}

/// Undo brings back the text as it was before the last transaction, and redo the
/// text as it was after it.
pub proof fn law_undo_and_redo_last_transaction(s: State, changes: Seq<Change>, now: State)
    requires
        settled(s.cells, s.log, s.version),
        !observes(s.version, s.local_clock),
        can_edit_in_turn(s, changes),
        same_text(now, edited_in_turn(s, changes)),
        now.history.undo_stack.len() > 0,
        holds_edits(now.history.undo_stack.last(), s, changes),
    ensures
        ({
            let undone = undone_once(now);
            let redone = redone_once(undone);
            &&& undone.text() == s.text()
            &&& redone.text() == now.text()
        }),
{
    let t = now.history.undo_stack.last();
    let plain = edited_in_turn(s, changes);
    law_undo_restores_transaction(s, changes, t);
    let back = undone_once(now);
    assert(same_text(back, undone_or_redone(plain, t)));
    assert(back.history.redo_stack.last() == t);
    assert(same_text(redone_once(back), undone_or_redone(undone_or_redone(plain, t), t)));
}

/// A transaction holds the edits that are made while it goes on.
pub proof fn law_transaction_holds_its_edits(
    s: State,
    set_id: Option<SelectionSetId>,
    now: u64,
    changes: Seq<Change>,
)
    requires
        s.history.depth == 0,
    ensures
        ({
            let begun = started(s, set_id, now);
            let stack = edited_in_turn(begun, changes).history.undo_stack;
            &&& stack.len() == s.history.undo_stack.len() + 1
            &&& stack.drop_last() == s.history.undo_stack
            &&& holds_edits(stack.last(), begun, changes)
            &&& stack.last().first_edit_at == now
        }),
    decreases changes.len(),
{
    let begun = started(s, set_id, now);
    let stack = edited_in_turn(begun, changes).history.undo_stack;
    if changes.len() == 0 {
        assert(stack.drop_last() =~= s.history.undo_stack);
        assert(stack.last().edits =~= names_in_turn(begun, changes));
        assert(stack.last().ranges =~= ranges_in_turn(begun, changes));
    } else {
        let past = changes.drop_last();
        law_transaction_holds_its_edits(s, set_id, now, past);
        let before = edited_in_turn(begun, past).history;
        let edit = last_operation(begun, changes);
        let id = local_of(edit.timestamp);
        assert(filing(before, edit).ops[id] == edit);
        assert(stack == undo_pushed(filing(before, edit), id).undo_stack);
        assert(stack.last() == with_edit(before.undo_stack.last(), edit));
        assert(stack.drop_last() =~= s.history.undo_stack);
    }
}

/// The last transaction is not to be joined with one that starts now.
pub open spec fn starts_anew(s: State, now: u64) -> bool {
    s.history.undo_stack.len() > 0 ==> {
        let last = s.history.undo_stack.last();
        now > last.last_edit_at + s.history.group_interval || !same_version(s.version, last.end)
    }
}

/// The transaction of one edit of the visible text, before it is joined with
/// another one.
pub proof fn lemma_edit_transaction(
    s: State,
    ranges: Seq<(int, int)>,
    text: Seq<char>,
    now: u64,
    requests: Seq<Arc<AutoindentRequest>>,
) -> (t: TransactionModel)
    requires
        settled(s.cells, s.log, s.version),
        can_edit(s, ranges, text),
        s.history.depth == 0,
    ensures
        ({
            let begun = started(State { pending_autoindent: false, ..s }, None, now);
            let within = edited_within(begun, ranges, text);
            let left = transaction_ended(within.history, None, now);
            let done = edit_applied(s, ranges, text, now, requests);
            let changes: Seq<Change> = seq![(ranges, text, s.lamport_clock)];
            &&& left.undo_stack == s.history.undo_stack.push(t)
            &&& left.redo_stack == s.history.redo_stack
            &&& left.group_interval == s.history.group_interval
            &&& left.ops == within.history.ops
            &&& done.history == grouped(left)
            &&& holds_edits(t, begun, changes)
            &&& can_edit_in_turn(begun, changes)
            &&& edited_in_turn(begun, changes) == within
            &&& t.first_edit_at == now
            &&& t.end == within.version
            &&& done.cells == within.cells
            &&& done.log == within.log
            &&& done.version == within.version
            &&& done.local_clock == within.local_clock
            &&& done.replica_id == within.replica_id
        }),
{
    let quiet = State { pending_autoindent: false, ..s };
    let begun = started(quiet, None, now);
    let changes: Seq<Change> = seq![(ranges, text, s.lamport_clock)];
    let within = edited_within(begun, ranges, text);
    assert(changes.drop_last() =~= Seq::<Change>::empty());
    assert(edited_in_turn(begun, changes.drop_last()) == begun);
    assert(at_time(begun, s.lamport_clock) =~= begun);
    assert(edited_in_turn(begun, changes) == within);
    assert(can_edit_in_turn(begun, changes.drop_last()));
    assert(can_edit_in_turn(begun, changes));
    law_transaction_holds_its_edits(quiet, None, now, changes);
    let t0 = within.history.undo_stack.last();
    lemma_gathered(begun, changes);
    assert(t0.ranges.len() > 0) by {
        let step = Step {
            cells: begun.cells,
            ranges,
            timestamp: edit_operation(begun, ranges, text).timestamp,
            text: bytes_of(edit_operation(begun, ranges, text).new_text),
        };
        assert(step.ok());
        step.lemma_basic();
        assert(ranges_in_turn(begun, changes.drop_last()) =~= Seq::empty());
        lemma_shifted_len(step.full(), step.n(), 0);
    }
    let t = TransactionModel { selections_after: None, last_edit_at: now, ..t0 };
    let edit = edit_operation(begun, ranges, text);
    let id = local_of(edit.timestamp);
    let filed = filing(begun.history, edit);
    assert(filed.ops[id] == edit);
    assert(t0 == with_edit(begun.history.undo_stack.last(), edit));
    assert(begun.history.undo_stack.last().end == s.version);
    assert(ended_transaction(within.history, None, now) == Some(t));
    let left = transaction_ended(within.history, None, now);
    assert(left.undo_stack =~= s.history.undo_stack.push(t));
    t
}

/// Undo brings back the text as it was before the last edit, and redo the text
/// as it was after it.
pub proof fn law_undo_and_redo_last_edit(
    s: State,
    ranges: Seq<(int, int)>,
    text: Seq<char>,
    now: u64,
    requests: Seq<Arc<AutoindentRequest>>,
)
    requires
        settled(s.cells, s.log, s.version),
        can_edit(s, ranges, text),
        s.history.depth == 0,
        starts_anew(s, now),
    ensures
        ({
            let edited = edit_applied(s, ranges, text, now, requests);
            let undone = undone_once(edited);
            let redone = redone_once(undone);
            &&& undone.text() == s.text()
            &&& redone.text() == edited.text()
        }),
{
    let begun = started(State { pending_autoindent: false, ..s }, None, now);
    let within = edited_within(begun, ranges, text);
    let changes: Seq<Change> = seq![(ranges, text, s.lamport_clock)];
    let t = lemma_edit_transaction(s, ranges, text, now, requests);
    let left = transaction_ended(within.history, None, now);
    let n = left.undo_stack.len() as int;
    if n >= 2 {
        assert(left.undo_stack[n - 2] == s.history.undo_stack.last());
    }
    assert(grouped_len(left.undo_stack, left.group_interval, n) == n);
    let after = edit_applied(s, ranges, text, now, requests);
    assert(same_text(after, within));
    assert(after.history == left);
    law_undo_and_redo_last_transaction(begun, changes, after);
}

pub proof fn lemma_shifted_len(others: Seq<(int, int)>, n: int, delta: int)
    ensures
        shifted_ranges(others, n, delta).len() == others.len(),
    decreases others.len(),
{
    if others.len() > 0 {
        lemma_shifted_len(others.drop_first(), n, plus(delta, n));
    }
}

/// The edits are on file.
pub open spec fn filed(ops: Map<Local, EditModel>, s: State, changes: Seq<Change>) -> bool
    decreases changes.len(),
{
    changes.len() > 0 ==> {
        &&& filed(ops, s, changes.drop_last())
        &&& ops[local_of(last_operation(s, changes).timestamp)] == last_operation(s, changes)
    }
}

/// Some edits after others.
pub proof fn lemma_in_turn(s: State, first: Seq<Change>, second: Seq<Change>)
    ensures
        edited_in_turn(s, first + second) == edited_in_turn(edited_in_turn(s, first), second),
        second.len() > 0 ==> last_operation(s, first + second) == last_operation(
            edited_in_turn(s, first),
            second,
        ),
    decreases second.len(),
{
    let all = first + second;
    if second.len() > 0 {
        lemma_in_turn(s, first, second.drop_last());
        assert(all.drop_last() =~= first + second.drop_last());
        assert(all.last() == second.last());
    } else {
        assert(all =~= first);
    }
}

/// A transaction that is joined with the next one holds the edits of both.
pub proof fn law_joined_transaction_holds_both(
    s: State,
    first: Seq<Change>,
    second: Seq<Change>,
    t: TransactionModel,
    ops: Map<Local, EditModel>,
)
    requires
        holds_edits(t, s, first),
        filed(ops, edited_in_turn(s, first), second),
    ensures
        ({
            let later = names_in_turn(edited_in_turn(s, first), second);
            holds_edits(with_edits(t, later, ops, later.len() as int), s, first + second)
        }),
    decreases second.len(),
{
    let middle = edited_in_turn(s, first);
    let later = names_in_turn(middle, second);
    let all = first + second;
    if second.len() == 0 {
        assert(all =~= first);
    } else {
        let past = second.drop_last();
        law_joined_transaction_holds_both(s, first, past, t, ops);
        lemma_in_turn(s, first, second);
        assert(all.drop_last() =~= first + past);
        let earlier = names_in_turn(middle, past);
        let n = later.len() as int;
        assert(later.drop_last() =~= earlier);
        lemma_with_edits_same(t, earlier, later, ops, n - 1);
        let edit = last_operation(middle, second);
        assert(ops[later[n - 1]] == edit);
    }
}

proof fn lemma_with_edits_same(
    t: TransactionModel,
    a: Seq<Local>,
    b: Seq<Local>,
    ops: Map<Local, EditModel>,
    n: int,
)
    requires
        n <= a.len(),
        n <= b.len(),
        forall|i: int| 0 <= i < n ==> a[i] == b[i],
    ensures
        with_edits(t, a, ops, n) == with_edits(t, b, ops, n),
    decreases n,
{
    if n > 0 {
        lemma_with_edits_same(t, a, b, ops, n - 1);
    }
}

/// What a settled buffer shows is what a log says that differs from its own in
/// later edits alone.
proof fn lemma_text_before_edits(s: State, changes: Seq<Change>, log: UndoLog)
    requires
        settled(s.cells, s.log, s.version),
        !observes(s.version, s.local_clock),
        gathered(s, changes),
        agree_without(log, s.log, names_in_turn(s, changes)),
    ensures
        text_by(s.cells, log) == s.text(),
{
    let names = names_in_turn(s, changes);
    assert forall|x: int| 0 <= x < s.cells.len() implies (#[trigger] s.cells[x]).visible == shown(
        s.cells[x].timestamp,
        s.cells[x].deletions,
        log,
    ) by {
        let c = s.cells[x];
        assert(observes(s.version, local_of(c.timestamp)));
        if names.contains(local_of(c.timestamp)) {
            lemma_new_name(s, changes, local_of(c.timestamp));
        }
        assert(!theirs(c, names)) by {
            if exists|d: Local| #[trigger] c.deletions.contains(d) && names.contains(d) {
                let d = choose|d: Local| #[trigger] c.deletions.contains(d) && names.contains(d);
                assert(s.cells[x].deletions.contains(d));
                assert(observes(s.version, d));
                lemma_new_name(s, changes, d);
            }
        }
        lemma_shown_without(c, log, s.log, names);
        assert(c.visible == shown(c.timestamp, c.deletions, s.log));
    }
    assert(alike(s.cells, s.cells));
    lemma_text_by(s.cells, s.cells, log);
}

} // verus!
