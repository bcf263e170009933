//! What has been done to a buffer, grouped into transactions that are undone
//! and redone together.

use std::ops::Range;
use vstd::prelude::*;

use crate::clock::{Global, Local, Version, observing, same_version};
use crate::fragment::local_of;
use crate::local_map::LocalMap;
use crate::operation::{
    EditModel, EditOperation, Selection, SelectionModel, SelectionSetId, bytes_of, clone_ranges,
    clone_selections, selection_models,
};
use crate::remote::pairs;

verus! {

/// Sums of offsets stop at the largest offset there is.
pub open spec fn plus(a: int, b: int) -> int {
    if a + b > usize::MAX {
        usize::MAX as int
    } else {
        a + b
    }
}

/// The ranges of a later edit where no earlier range is left: each is moved by
/// what has been inserted before it, and grows by its own text.
pub open spec fn shifted_ranges(others: Seq<(int, int)>, len: int, delta: int) -> Seq<(int, int)>
    decreases others.len(),
{
    if others.len() == 0 {
        Seq::empty()
    } else {
        seq![(plus(others[0].0, delta), plus(plus(others[0].1, delta), len))] + shifted_ranges(
            others.drop_first(),
            len,
            plus(delta, len),
        )
    }
}

/// The earlier range `range`, which takes in every range of the later edit that
/// it touches, and all the ranges that follow.
pub open spec fn absorbed_ranges(
    range: (int, int),
    ranges: Seq<(int, int)>,
    others: Seq<(int, int)>,
    len: int,
    delta: int,
) -> Seq<(int, int)>
    decreases ranges.len(), 1int, others.len(),
{
    if others.len() > 0 && plus(others[0].0, delta) <= range.1 {
        let start = plus(others[0].0, delta);
        let end = plus(others[0].1, delta);
        if end < range.0 {
            seq![(start, plus(end, len))] + absorbed_ranges(
                (plus(range.0, len), plus(range.1, len)),
                ranges,
                others.drop_first(),
                len,
                plus(delta, len),
            )
        } else {
            absorbed_ranges(
                (
                    if start < range.0 {
                        start
                    } else {
                        range.0
                    },
                    plus(
                        if end > range.1 {
                            end
                        } else {
                            range.1
                        },
                        len,
                    ),
                ),
                ranges,
                others.drop_first(),
                len,
                plus(delta, len),
            )
        }
    } else {
        seq![range] + merged_ranges(ranges, others, len, delta)
    }
}

/// The ranges of earlier edits, together with the ranges of a later one that
/// inserted `len` bytes at each of them; `delta` bytes have been inserted
/// before them.
pub open spec fn merged_ranges(
    ranges: Seq<(int, int)>,
    others: Seq<(int, int)>,
    len: int,
    delta: int,
) -> Seq<(int, int)>
    decreases ranges.len(), 0int, others.len(),
{
    if ranges.len() == 0 {
        shifted_ranges(others, len, delta)
    } else {
        absorbed_ranges(
            (plus(ranges[0].0, delta), plus(ranges[0].1, delta)),
            ranges.drop_first(),
            others,
            len,
            delta,
        )
    }
}

/// Edits that are undone and redone together.
#[derive(Debug)]
pub struct Transaction {
    pub start: Global,
    pub end: Global,
    pub buffer_was_dirty: bool,
    pub edits: Vec<Local>,
    pub ranges: Vec<Range<usize>>,
    pub selections_before: Option<(SelectionSetId, Vec<Selection>)>,
    pub selections_after: Option<(SelectionSetId, Vec<Selection>)>,
    pub first_edit_at: u64,
    pub last_edit_at: u64,
}

/// What a transaction means.
#[verifier::ext_equal]
pub ghost struct TransactionModel {
    pub start: Version,
    pub end: Version,
    pub buffer_was_dirty: bool,
    pub edits: Seq<Local>,
    pub ranges: Seq<(int, int)>,
    pub selections_before: Option<(SelectionSetId, Seq<SelectionModel>)>,
    pub selections_after: Option<(SelectionSetId, Seq<SelectionModel>)>,
    pub first_edit_at: u64,
    pub last_edit_at: u64,
}

/// What the selections of a set, if any, mean.
pub open spec fn kept_models(kept: Option<(SelectionSetId, Vec<Selection>)>) -> Option<
    (SelectionSetId, Seq<SelectionModel>),
> {
    match kept {
        Some(pair) => Some((pair.0, selection_models(pair.1@))),
        None => None,
    }
}

pub fn clone_kept(kept: &Option<(SelectionSetId, Vec<Selection>)>) -> (copy: Option<
    (SelectionSetId, Vec<Selection>),
>)
    ensures
        kept_models(copy) == kept_models(*kept),
{
    match kept {
        Some(pair) => Some((pair.0, clone_selections(&pair.1))),
        None => None,
    }
}

impl View for Transaction {
    type V = TransactionModel;

    open spec fn view(&self) -> TransactionModel {
        TransactionModel {
            start: self.start@,
            end: self.end@,
            buffer_was_dirty: self.buffer_was_dirty,
            edits: self.edits@,
            ranges: pairs(self.ranges@),
            selections_before: kept_models(self.selections_before),
            selections_after: kept_models(self.selections_after),
            first_edit_at: self.first_edit_at,
            last_edit_at: self.last_edit_at,
        }
    }
}

impl Clone for Transaction {
    fn clone(&self) -> (copy: Self)
        ensures
            copy@ == self@,
    {
        let edits = self.edits.clone();
        assert(edits@ =~= self.edits@);
        Transaction {
            start: self.start.clone(),
            end: self.end.clone(),
            buffer_was_dirty: self.buffer_was_dirty,
            edits,
            ranges: clone_ranges(&self.ranges),
            selections_before: clone_kept(&self.selections_before),
            selections_after: clone_kept(&self.selections_after),
            first_edit_at: self.first_edit_at,
            last_edit_at: self.last_edit_at,
        }
    }
}

/// The transaction `t` with one more edit.
pub open spec fn with_edit(t: TransactionModel, edit: EditModel) -> TransactionModel {
    TransactionModel {
        end: observing(t.end, local_of(edit.timestamp)),
        edits: t.edits.push(local_of(edit.timestamp)),
        ranges: merged_ranges(
            t.ranges,
            edit.ranges,
            bytes_of(edit.new_text).len() as int,
            0,
        ),
        ..t
    }
}

/// The sum of two offsets; the largest offset if it is too large.
pub fn saturating_plus(a: usize, b: usize) -> (sum: usize)
    ensures
        sum == plus(a as int, b as int),
{
    if a > usize::MAX - b {
        usize::MAX
    } else {
        a + b
    }
}

proof fn lemma_pairs_push(ranges: Seq<Range<usize>>, range: Range<usize>)
    ensures
        pairs(ranges.push(range)) == pairs(ranges).push((range.start as int, range.end as int)),
{
    assert(pairs(ranges.push(range)) =~= pairs(ranges).push(
        (range.start as int, range.end as int),
    ));
}

impl Transaction {
    /// Adds an edit that was made after all the others.
    pub fn push_edit(&mut self, edit: &EditOperation)
        ensures
            final(self)@ == with_edit(old(self)@, edit@),
    {
        self.edits.push(edit.timestamp.local());
        self.end.observe(edit.timestamp.local());

        let mut new_ranges: Vec<Range<usize>> = Vec::new();
        let insertion_len: usize = match &edit.new_text {
            Some(text) => text.as_str().as_bytes().len(),
            None => 0,
        };
        let mut delta: usize = 0;
        let ghost ours = pairs(self.ranges@);
        let ghost others = pairs(edit.ranges@);
        let ghost len = insertion_len as int;
        let ghost goal = merged_ranges(ours, others, len, 0);

        let mut next_other: usize = 0;
        let mut i: usize = 0;
        proof {
            assert(ours.skip(0) =~= ours);
            assert(others.skip(0) =~= others);
            assert(pairs(new_ranges@) + goal =~= goal);
        }
        while i < self.ranges.len()
            invariant
                i <= self.ranges@.len(),
                next_other <= edit.ranges@.len(),
                ours == pairs(self.ranges@),
                others == pairs(edit.ranges@),
                len == insertion_len,
                goal == pairs(new_ranges@) + merged_ranges(
                    ours.skip(i as int),
                    others.skip(next_other as int),
                    len,
                    delta as int,
                ),
            decreases self.ranges@.len() - i,
        {
            let mut start = saturating_plus(self.ranges[i].start, delta);
            let mut end = saturating_plus(self.ranges[i].end, delta);
            let ghost rest = ours.skip(i + 1);
            proof {
                assert(ours.skip(i as int).drop_first() =~= rest);
                assert(ours.skip(i as int)[0] == ours[i as int]);
            }
            while next_other < edit.ranges.len()
                invariant
                    next_other <= edit.ranges@.len(),
                    others == pairs(edit.ranges@),
                    len == insertion_len,
                    goal == pairs(new_ranges@) + absorbed_ranges(
                        (start as int, end as int),
                        rest,
                        others.skip(next_other as int),
                        len,
                        delta as int,
                    ),
                ensures
                    next_other < edit.ranges@.len() ==> plus(
                        others[next_other as int].0,
                        delta as int,
                    ) > end,
                decreases edit.ranges@.len() - next_other,
            {
                let other_start = saturating_plus(edit.ranges[next_other].start, delta);
                let other_end = saturating_plus(edit.ranges[next_other].end, delta);
                let ghost left = others.skip(next_other as int);
                proof {
                    assert(left.drop_first() =~= others.skip(next_other + 1));
                    assert(left[0] == others[next_other as int]);
                }
                if other_start > end {
                    break;
                }
                next_other = next_other + 1;
                delta = saturating_plus(delta, insertion_len);
                if other_end < start {
                    let range = other_start..saturating_plus(other_end, insertion_len);
                    proof {
                        lemma_pairs_push(new_ranges@, range);
                        let pair = (range.start as int, range.end as int);
                        let tail = absorbed_ranges(
                            (plus(start as int, len), plus(end as int, len)),
                            rest,
                            others.skip(next_other as int),
                            len,
                            delta as int,
                        );
                        assert(pairs(new_ranges@) + (seq![pair] + tail) =~= pairs(new_ranges@).push(
                            pair,
                        ) + tail);
                    }
                    new_ranges.push(range);
                    start = saturating_plus(start, insertion_len);
                    end = saturating_plus(end, insertion_len);
                } else {
                    if other_start < start {
                        start = other_start;
                    }
                    if other_end > end {
                        end = other_end;
                    }
                    end = saturating_plus(end, insertion_len);
                }
            }
            proof {
                let left = others.skip(next_other as int);
                if next_other < edit.ranges@.len() {
                    assert(left[0] == others[next_other as int]);
                }
                lemma_pairs_push(new_ranges@, start..end);
                let pair = (start as int, end as int);
                let tail = merged_ranges(rest, left, len, delta as int);
                assert(pairs(new_ranges@) + (seq![pair] + tail) =~= pairs(new_ranges@).push(pair)
                    + tail);
            }
            new_ranges.push(start..end);
            i = i + 1;
        }
        while next_other < edit.ranges.len()
            invariant
                next_other <= edit.ranges@.len(),
                others == pairs(edit.ranges@),
                len == insertion_len,
                goal == pairs(new_ranges@) + shifted_ranges(
                    others.skip(next_other as int),
                    len,
                    delta as int,
                ),
            decreases edit.ranges@.len() - next_other,
        {
            let start = saturating_plus(edit.ranges[next_other].start, delta);
            let end = saturating_plus(
                saturating_plus(edit.ranges[next_other].end, delta),
                insertion_len,
            );
            proof {
                let left = others.skip(next_other as int);
                assert(left.drop_first() =~= others.skip(next_other + 1));
                assert(left[0] == others[next_other as int]);
                lemma_pairs_push(new_ranges@, start..end);
                let pair = (start as int, end as int);
                let tail = shifted_ranges(left.drop_first(), len, plus(delta as int, len));
                assert(pairs(new_ranges@) + (seq![pair] + tail) =~= pairs(new_ranges@).push(pair)
                    + tail);
            }
            new_ranges.push(start..end);
            delta = saturating_plus(delta, insertion_len);
            next_other = next_other + 1;
        }
        assert(pairs(new_ranges@) + Seq::<(int, int)>::empty() =~= pairs(new_ranges@));
        self.ranges = new_ranges;
    }
}

/// What has been done to a buffer.
#[derive(Debug)]
pub struct History {
    pub base_text: String,
    pub ops: LocalMap<EditOperation>,
    pub undo_stack: Vec<Transaction>,
    pub redo_stack: Vec<Transaction>,
    pub transaction_depth: usize,
    pub group_interval: u64,
}

/// What a history means.
#[verifier::ext_equal]
pub ghost struct HistoryModel {
    pub base_text: Seq<char>,
    pub ops: Map<Local, EditModel>,
    pub undo_stack: Seq<TransactionModel>,
    pub redo_stack: Seq<TransactionModel>,
    pub depth: int,
    pub group_interval: u64,
}

/// What a list of transactions means.
pub open spec fn transaction_models(stack: Seq<Transaction>) -> Seq<TransactionModel> {
    stack.map_values(|t: Transaction| t@)
}

/// What filed edits mean.
pub open spec fn edit_models(ops: Map<Local, EditOperation>) -> Map<Local, EditModel> {
    Map::new(|id: Local| ops.contains_key(id), |id: Local| ops[id]@)
}

impl View for History {
    type V = HistoryModel;

    open spec fn view(&self) -> HistoryModel {
        HistoryModel {
            base_text: self.base_text@,
            ops: edit_models(self.ops@),
            undo_stack: transaction_models(self.undo_stack@),
            redo_stack: transaction_models(self.redo_stack@),
            depth: self.transaction_depth as int,
            group_interval: self.group_interval,
        }
    }
}

/// Every edit of the transaction is filed.
pub open spec fn edits_filed(t: TransactionModel, ops: Map<Local, EditModel>) -> bool {
    forall|i: int| 0 <= i < t.edits.len() ==> ops.contains_key(#[trigger] t.edits[i])
}

impl HistoryModel {
    pub open spec fn wf(self) -> bool {
        &&& self.depth > 0 ==> self.undo_stack.len() > 0
        &&& forall|id: Local| #[trigger]
            self.ops.contains_key(id) ==> local_of(self.ops[id].timestamp) == id
        &&& forall|i: int|
            0 <= i < self.undo_stack.len() ==> edits_filed(#[trigger] self.undo_stack[i], self.ops)
        &&& forall|i: int|
            0 <= i < self.redo_stack.len() ==> edits_filed(#[trigger] self.redo_stack[i], self.ops)
        &&& self.touched()
    }

    /// Every transaction has touched something, but for one that goes on.
    pub open spec fn touched(self) -> bool {
        &&& forall|i: int|
            0 <= i < self.undo_stack.len() && (self.depth == 0 || i < self.undo_stack.len() - 1)
                ==> (#[trigger] self.undo_stack[i]).ranges.len() > 0
        &&& forall|i: int|
            0 <= i < self.redo_stack.len() ==> (#[trigger] self.redo_stack[i]).ranges.len() > 0
    }
}

/// Ranges do not get lost when others are added.
proof fn lemma_merged_not_empty(
    ranges: Seq<(int, int)>,
    others: Seq<(int, int)>,
    len: int,
    delta: int,
)
    requires
        ranges.len() > 0,
    ensures
        merged_ranges(ranges, others, len, delta).len() > 0,
{
    lemma_absorbed_not_empty(
        (plus(ranges[0].0, delta), plus(ranges[0].1, delta)),
        ranges.drop_first(),
        others,
        len,
        delta,
    );
}

proof fn lemma_absorbed_not_empty(
    range: (int, int),
    ranges: Seq<(int, int)>,
    others: Seq<(int, int)>,
    len: int,
    delta: int,
)
    ensures
        absorbed_ranges(range, ranges, others, len, delta).len() > 0,
    decreases others.len(),
{
    if others.len() > 0 && plus(others[0].0, delta) <= range.1 {
        let start = plus(others[0].0, delta);
        let end = plus(others[0].1, delta);
        if !(end < range.0) {
            lemma_absorbed_not_empty(
                (
                    if start < range.0 {
                        start
                    } else {
                        range.0
                    },
                    plus(
                        if end > range.1 {
                            end
                        } else {
                            range.1
                        },
                        len,
                    ),
                ),
                ranges,
                others.drop_first(),
                len,
                plus(delta, len),
            );
        }
    }
}

/// Transactions with the same edits are on file as well.
proof fn lemma_still_filed(
    before: Seq<TransactionModel>,
    after: Seq<TransactionModel>,
    ops: Map<Local, EditModel>,
)
    requires
        after.len() <= before.len(),
        forall|i: int| 0 <= i < before.len() ==> edits_filed(#[trigger] before[i], ops),
        forall|i: int| 0 <= i < after.len() ==> (#[trigger] after[i]).edits == before[i].edits,
    ensures
        forall|i: int| 0 <= i < after.len() ==> edits_filed(#[trigger] after[i], ops),
{
    assert forall|i: int| 0 <= i < after.len() implies edits_filed(#[trigger] after[i], ops) by {
        assert(edits_filed(before[i], ops));
    }
}

/// The history of a buffer to which nothing has been done.
pub open spec fn new_history(base_text: Seq<char>) -> HistoryModel {
    HistoryModel {
        base_text,
        ops: Map::empty(),
        undo_stack: Seq::empty(),
        redo_stack: Seq::empty(),
        depth: 0,
        group_interval: 300_000_000,
    }
}

/// The history with one more edit on file.
pub open spec fn filing(h: HistoryModel, edit: EditModel) -> HistoryModel {
    HistoryModel { ops: h.ops.insert(local_of(edit.timestamp), edit), ..h }
}

/// The history once a transaction has been started.
pub open spec fn transaction_started(
    h: HistoryModel,
    start: Version,
    was_dirty: bool,
    selections: Option<(SelectionSetId, Seq<SelectionModel>)>,
    now: u64,
) -> HistoryModel {
    HistoryModel {
        depth: h.depth + 1,
        undo_stack: if h.depth == 0 {
            h.undo_stack.push(
                TransactionModel {
                    start,
                    end: start,
                    buffer_was_dirty: was_dirty,
                    edits: Seq::empty(),
                    ranges: Seq::empty(),
                    selections_before: selections,
                    selections_after: None,
                    first_edit_at: now,
                    last_edit_at: now,
                },
            )
        } else {
            h.undo_stack
        },
        ..h
    }
}

/// The transaction that has just been ended, if it is the outermost one and
/// something was edited.
pub open spec fn ended_transaction(
    h: HistoryModel,
    selections: Option<(SelectionSetId, Seq<SelectionModel>)>,
    now: u64,
) -> Option<TransactionModel> {
    if h.depth == 1 && h.undo_stack.last().ranges.len() > 0 {
        Some(
            TransactionModel {
                selections_after: selections,
                last_edit_at: now,
                ..h.undo_stack.last()
            },
        )
    } else {
        None
    }
}

/// The history once a transaction has been ended.
pub open spec fn transaction_ended(
    h: HistoryModel,
    selections: Option<(SelectionSetId, Seq<SelectionModel>)>,
    now: u64,
) -> HistoryModel {
    HistoryModel {
        depth: h.depth - 1,
        undo_stack: if h.depth == 1 {
            match ended_transaction(h, selections, now) {
                Some(t) => h.undo_stack.update(h.undo_stack.len() - 1, t),
                None => h.undo_stack.drop_last(),
            }
        } else {
            h.undo_stack
        },
        ..h
    }
}

/// `later` followed `earlier` soon, with nothing in between.
pub open spec fn joins(earlier: TransactionModel, later: TransactionModel, interval: u64) -> bool {
    &&& later.first_edit_at <= earlier.last_edit_at + interval
    &&& same_version(later.start, earlier.end)
}

/// How many transactions are left of the first `n` once the last ones have been
/// joined.
pub open spec fn grouped_len(stack: Seq<TransactionModel>, interval: u64, n: int) -> int
    decreases n,
{
    if n >= 2 && joins(stack[n - 2], stack[n - 1], interval) {
        grouped_len(stack, interval, n - 1)
    } else {
        n
    }
}

/// The transaction `t` with the first `n` of some more edits.
pub open spec fn with_edits(
    t: TransactionModel,
    edits: Seq<Local>,
    ops: Map<Local, EditModel>,
    n: int,
) -> TransactionModel
    decreases n,
{
    if n <= 0 {
        t
    } else {
        with_edit(with_edits(t, edits, ops, n - 1), ops[edits[n - 1]])
    }
}

/// The transaction `t` with the edits of the transactions from `from` to `n`.
pub open spec fn with_transactions(
    t: TransactionModel,
    stack: Seq<TransactionModel>,
    ops: Map<Local, EditModel>,
    from: int,
    n: int,
) -> TransactionModel
    decreases n - from,
{
    if n <= from {
        t
    } else {
        with_edits(
            with_transactions(t, stack, ops, from, n - 1),
            stack[n - 1].edits,
            ops,
            stack[n - 1].edits.len() as int,
        )
    }
}

/// The history once the last transactions that followed each other soon have
/// been joined into one.
pub open spec fn grouped(h: HistoryModel) -> HistoryModel {
    let stack = h.undo_stack;
    let n = grouped_len(stack, h.group_interval, stack.len() as int);
    if n == stack.len() {
        h
    } else {
        let last = TransactionModel {
            last_edit_at: stack.last().last_edit_at,
            selections_after: stack.last().selections_after,
            end: stack.last().end,
            ..with_transactions(stack[n - 1], stack, h.ops, n, stack.len() as int)
        };
        HistoryModel { undo_stack: stack.take(n - 1).push(last), ..h }
    }
}

/// More edits leave a transaction's start as it was.
proof fn lemma_with_edits_start(
    t: TransactionModel,
    edits: Seq<Local>,
    ops: Map<Local, EditModel>,
    n: int,
)
    ensures
        with_edits(t, edits, ops, n).start == t.start,
        with_edits(t, edits, ops, n).first_edit_at == t.first_edit_at,
    decreases n,
{
    if n > 0 {
        lemma_with_edits_start(t, edits, ops, n - 1);
    }
}

/// The edits of more transactions leave a transaction's start as it was.
proof fn lemma_with_transactions_start(
    t: TransactionModel,
    stack: Seq<TransactionModel>,
    ops: Map<Local, EditModel>,
    from: int,
    n: int,
)
    ensures
        with_transactions(t, stack, ops, from, n).start == t.start,
        with_transactions(t, stack, ops, from, n).first_edit_at == t.first_edit_at,
    decreases n - from,
{
    if n > from {
        lemma_with_transactions_start(t, stack, ops, from, n - 1);
        lemma_with_edits_start(
            with_transactions(t, stack, ops, from, n - 1),
            stack[n - 1].edits,
            ops,
            stack[n - 1].edits.len() as int,
        );
    }
}

/// Where joining ends, no two transactions are left that would join.
pub proof fn lemma_grouped_len(stack: Seq<TransactionModel>, interval: u64, n: int)
    requires
        0 <= n <= stack.len(),
    ensures
        ({
            let m = grouped_len(stack, interval, n);
            &&& 0 <= m <= n
            &&& n > 0 ==> m > 0
            &&& m >= 2 ==> !joins(stack[m - 2], stack[m - 1], interval)
        }),
    decreases n,
{
    if n >= 2 && joins(stack[n - 2], stack[n - 1], interval) {
        lemma_grouped_len(stack, interval, n - 1);
    }
}

/// Joining the last transactions leaves the last two of them apart, leaves those
/// before them as they were, and leaves an empty history as it was.
pub proof fn law_group_leaves_last_apart(h: HistoryModel)
    ensures
        ({
            let stack = grouped(h).undo_stack;
            let n = stack.len() as int;
            &&& n >= 2 ==> !joins(stack[n - 2], stack[n - 1], h.group_interval)
            &&& h.undo_stack.len() == 0 ==> grouped(h) == h
            &&& n <= h.undo_stack.len()
            &&& h.undo_stack.len() > 0 ==> n > 0
            &&& forall|i: int| 0 <= i < n - 1 ==> #[trigger] stack[i] == h.undo_stack[i]
            &&& n > 0 ==> stack[n - 1].start == h.undo_stack[n - 1].start
            &&& n > 0 ==> stack[n - 1].first_edit_at == h.undo_stack[n - 1].first_edit_at
        }),
{
    let stack = h.undo_stack;
    let n = grouped_len(stack, h.group_interval, stack.len() as int);
    lemma_grouped_len(stack, h.group_interval, stack.len() as int);
    if n < stack.len() {
        lemma_with_transactions_start(stack[n - 1], stack, h.ops, n, stack.len() as int);
    }
}

/// Joining the last transactions a second time changes nothing more.
pub proof fn law_group_settles(h: HistoryModel)
    ensures
        grouped(grouped(h)) == grouped(h),
{
    law_group_leaves_last_apart(h);
    let after = grouped(h);
    let n = after.undo_stack.len() as int;
    assert(grouped_len(after.undo_stack, after.group_interval, n) == n);
}

/// The history once the edit on file has been added to the last transaction.
pub open spec fn undo_pushed(h: HistoryModel, edit_id: Local) -> HistoryModel {
    HistoryModel {
        undo_stack: h.undo_stack.update(
            h.undo_stack.len() - 1,
            with_edit(h.undo_stack.last(), h.ops[edit_id]),
        ),
        ..h
    }
}

/// The history once the last transaction has been taken off the undo stack.
pub open spec fn undo_popped(h: HistoryModel) -> HistoryModel {
    if h.undo_stack.len() == 0 {
        h
    } else {
        HistoryModel {
            undo_stack: h.undo_stack.drop_last(),
            redo_stack: h.redo_stack.push(h.undo_stack.last()),
            ..h
        }
    }
}

/// The history once the last transaction has been taken off the redo stack.
pub open spec fn redo_popped(h: HistoryModel) -> HistoryModel {
    if h.redo_stack.len() == 0 {
        h
    } else {
        HistoryModel {
            redo_stack: h.redo_stack.drop_last(),
            undo_stack: h.undo_stack.push(h.redo_stack.last()),
            ..h
        }
    }
}

/// The top of a stack, if there is one.
pub open spec fn top(stack: Seq<TransactionModel>) -> Option<TransactionModel> {
    if stack.len() == 0 {
        None
    } else {
        Some(stack.last())
    }
}

pub open spec fn maybe_transaction(t: Option<Transaction>) -> Option<TransactionModel> {
    match t {
        Some(t) => Some(t@),
        None => None,
    }
}

fn clone_stack(stack: &Vec<Transaction>) -> (copy: Vec<Transaction>)
    ensures
        transaction_models(copy@) == transaction_models(stack@),
{
    let mut copy: Vec<Transaction> = Vec::new();
    let mut i: usize = 0;
    while i < stack.len()
        invariant
            i <= stack@.len(),
            copy@.len() == i,
            forall|j: int| 0 <= j < i ==> (#[trigger] copy@[j])@ == stack@[j]@,
        decreases stack@.len() - i,
    {
        copy.push(stack[i].clone());
        i = i + 1;
    }
    assert(transaction_models(copy@) =~= transaction_models(stack@));
    copy
}

impl Clone for History {
    fn clone(&self) -> (copy: Self)
        ensures
            copy@ == self@,
    {
        History {
            base_text: self.base_text.clone(),
            ops: self.ops.clone(),
            undo_stack: clone_stack(&self.undo_stack),
            redo_stack: clone_stack(&self.redo_stack),
            transaction_depth: self.transaction_depth,
            group_interval: self.group_interval,
        }
    }
}

impl History {
    /// The history of a buffer that holds `base_text`.
    pub fn new(base_text: String) -> (history: History)
        ensures
            history@ == new_history(base_text@),
            history@.wf(),
    {
        let history = History {
            base_text,
            ops: LocalMap::new(),
            undo_stack: Vec::new(),
            redo_stack: Vec::new(),
            transaction_depth: 0,
            group_interval: 300_000_000,
        };
        assert(history@.ops =~= Map::empty());
        assert(history@.undo_stack =~= Seq::empty());
        assert(history@.redo_stack =~= Seq::empty());
        history
    }

    /// Files an edit.
    pub fn push(&mut self, op: EditOperation)
        requires
            old(self)@.wf(),
        ensures
            final(self)@ == filing(old(self)@, op@),
            final(self)@.wf(),
    {
        let id = op.timestamp.local();
        let _ = self.ops.insert(id, op);
        assert(self@.ops =~= old(self)@.ops.insert(id, op@));
    }

    /// Starts a transaction, or enters the current one once more.
    pub fn start_transaction(
        &mut self,
        start: Global,
        buffer_was_dirty: bool,
        selections: Option<(SelectionSetId, Vec<Selection>)>,
        now: u64,
    )
        requires
            old(self)@.wf(),
            old(self)@.depth < usize::MAX,
        ensures
            final(self)@ == transaction_started(
                old(self)@,
                start@,
                buffer_was_dirty,
                kept_models(selections),
                now,
            ),
            final(self)@.wf(),
    {
        self.transaction_depth = self.transaction_depth + 1;
        if self.transaction_depth == 1 {
            let transaction = Transaction {
                start: start.clone(),
                end: start,
                buffer_was_dirty,
                edits: Vec::new(),
                ranges: Vec::new(),
                selections_before: selections,
                selections_after: None,
                first_edit_at: now,
                last_edit_at: now,
            };
            let ghost model = transaction@;
            self.undo_stack.push(transaction);
            proof {
                assert(model.ranges =~= Seq::empty());
                assert(self@.undo_stack =~= old(self)@.undo_stack.push(model));
                assert(edits_filed(model, self@.ops));
                assert forall|k: int| 0 <= k < self@.undo_stack.len() implies edits_filed(
                    #[trigger] self@.undo_stack[k],
                    self@.ops,
                ) by {
                    if k < old(self)@.undo_stack.len() {
                        assert(edits_filed(old(self)@.undo_stack[k], self@.ops));
                    }
                }
            }
        } else {
            assert(self@.undo_stack == old(self)@.undo_stack);
        }
        assert(self@.redo_stack == old(self)@.redo_stack);
    }

    /// Leaves the current transaction. Leaving it for the last time ends it:
    /// one in which nothing was edited is dropped.
    pub fn end_transaction(
        &mut self,
        selections: Option<(SelectionSetId, Vec<Selection>)>,
        now: u64,
    ) -> (ended: Option<Transaction>)
        requires
            old(self)@.wf(),
            old(self)@.depth > 0,
        ensures
            final(self)@ == transaction_ended(old(self)@, kept_models(selections), now),
            final(self)@.wf(),
            maybe_transaction(ended) == ended_transaction(
                old(self)@,
                kept_models(selections),
                now,
            ),
    {
        self.transaction_depth = self.transaction_depth - 1;
        if self.transaction_depth > 0 {
            proof {
                assert(self@.undo_stack == old(self)@.undo_stack);
                assert(self@.redo_stack == old(self)@.redo_stack);
            }
            return None;
        }
        let ghost before = self.undo_stack@;
        match self.undo_stack.pop() {
            Some(mut transaction) => {
                proof {
                    assert(old(self)@.undo_stack.last() == transaction@);
                }
                if transaction.ranges.len() == 0 {
                    proof {
                        assert(self@.undo_stack =~= old(self)@.undo_stack.drop_last());
                        lemma_still_filed(
                            old(self)@.undo_stack,
                            self@.undo_stack,
                            self@.ops,
                        );
                        assert(self@.redo_stack == old(self)@.redo_stack);
                    }
                    None
                } else {
                    transaction.selections_after = selections;
                    transaction.last_edit_at = now;
                    let ended = transaction.clone();
                    let ghost model = transaction@;
                    self.undo_stack.push(transaction);
                    proof {
                        assert(self@.undo_stack =~= old(self)@.undo_stack.update(
                            old(self)@.undo_stack.len() - 1,
                            model,
                        ));
                        lemma_still_filed(
                            old(self)@.undo_stack,
                            self@.undo_stack,
                            self@.ops,
                        );
                        assert(self@.redo_stack == old(self)@.redo_stack);
                    }
                    Some(ended)
                }
            },
            None => None,
        }
    }

    /// Joins the last transactions that followed each other soon, with nothing
    /// in between.
    pub fn group(&mut self)
        requires
            old(self)@.wf(),
            old(self)@.depth == 0,
        ensures
            final(self)@ == grouped(old(self)@),
            final(self)@.wf(),
    {
        let ghost stack = self@.undo_stack;
        let ghost ops = self@.ops;
        let ghost interval = self.group_interval;
        let len = self.undo_stack.len();
        let mut new_len: usize = len;
        while new_len >= 2
            invariant
                new_len <= len,
                len > 0 ==> new_len > 0,
                *self == *old(self),
                stack == self@.undo_stack,
                len == stack.len(),
                interval == self.group_interval,
                grouped_len(stack, interval, new_len as int) == grouped_len(
                    stack,
                    interval,
                    len as int,
                ),
            ensures
                new_len == grouped_len(stack, interval, len as int),
            decreases new_len,
        {
            let transaction = &self.undo_stack[new_len - 1];
            let previous = &self.undo_stack[new_len - 2];
            proof {
                assert(stack[new_len - 1] == transaction@);
                assert(stack[new_len - 2] == previous@);
            }
            let gap: u64 = if transaction.first_edit_at > previous.last_edit_at {
                transaction.first_edit_at - previous.last_edit_at
            } else {
                0
            };
            if gap <= self.group_interval && transaction.start.same_as(&previous.end) {
                new_len = new_len - 1;
            } else {
                break;
            }
        }
        if new_len == len {
            return;
        }
        let mut last = self.undo_stack[new_len - 1].clone();
        let ghost first = last@;
        proof {
            assert(stack[new_len - 1] == first);
        }
        let mut i: usize = new_len;
        while i < len
            invariant
                0 < new_len <= i <= len,
                *self == *old(self),
                stack == self@.undo_stack,
                ops == self@.ops,
                self@.wf(),
                len == stack.len(),
                last@ == with_transactions(first, stack, ops, new_len as int, i as int),
                last@.edits.len() >= 0,
                edits_filed(last@, ops),
                last@.ranges.len() > 0,
            decreases len - i,
        {
            let transaction = &self.undo_stack[i];
            let ghost start = last@;
            let ghost edits = stack[i as int].edits;
            proof {
                assert(stack[i as int] == transaction@);
            }
            let mut j: usize = 0;
            while j < transaction.edits.len()
                invariant
                    j <= transaction.edits@.len(),
                    edits == transaction.edits@,
                    i < len,
                    len == stack.len(),
                    *self == *old(self),
                    stack == self@.undo_stack,
                    ops == self@.ops,
                    stack[i as int].edits == edits,
                    self@.wf(),
                    last@ == with_edits(start, edits, ops, j as int),
                    edits_filed(last@, ops),
                    last@.ranges.len() > 0,
                decreases transaction.edits@.len() - j,
            {
                let edit_id = transaction.edits[j];
                proof {
                    assert(edits_filed(stack[i as int], ops));
                    assert(ops.contains_key(stack[i as int].edits[j as int]));
                }
                match self.ops.get(edit_id) {
                    Some(edit) => {
                        proof {
                            assert(ops[edit_id] == edit@);
                            assert(local_of(ops[edit_id].timestamp) == edit_id);
                            lemma_merged_not_empty(
                                last@.ranges,
                                edit@.ranges,
                                bytes_of(edit@.new_text).len() as int,
                                0,
                            );
                        }
                        last.push_edit(edit);
                    },
                    None => {},
                }
                j = j + 1;
            }
            i = i + 1;
        }
        let newest = &self.undo_stack[len - 1];
        last.last_edit_at = newest.last_edit_at;
        last.selections_after = clone_kept(&newest.selections_after);
        last.end = newest.end.clone();
        let ghost model = last@;
        proof {
            assert(newest@ == stack.last());
        }
        self.undo_stack.truncate(new_len - 1);
        self.undo_stack.push(last);
        proof {
            assert(self@.undo_stack =~= stack.take(new_len - 1).push(model));
            assert(edits_filed(model, ops));
            assert forall|k: int| 0 <= k < self@.undo_stack.len() implies edits_filed(
                #[trigger] self@.undo_stack[k],
                self@.ops,
            ) by {
                if k < new_len - 1 {
                    assert(edits_filed(stack[k], ops));
                }
            }
            assert(self@.redo_stack == old(self)@.redo_stack);
        }
    }

    /// Adds an edit on file to the current transaction.
    pub fn push_undo(&mut self, edit_id: Local)
        requires
            old(self)@.wf(),
            old(self)@.depth > 0,
            old(self)@.ops.contains_key(edit_id),
        ensures
            final(self)@ == undo_pushed(old(self)@, edit_id),
            final(self)@.wf(),
    {
        let ghost ops = self@.ops;
        match self.undo_stack.pop() {
            Some(mut transaction) => {
                proof {
                    assert(old(self)@.undo_stack.last() == transaction@);
                    assert(edits_filed(transaction@, ops));
                    assert(local_of(ops[edit_id].timestamp) == edit_id);
                }
                match self.ops.get(edit_id) {
                    Some(edit) => {
                        transaction.push_edit(edit);
                    },
                    None => {},
                }
                let ghost model = transaction@;
                self.undo_stack.push(transaction);
                proof {
                    assert(self@.undo_stack =~= old(self)@.undo_stack.update(
                        old(self)@.undo_stack.len() - 1,
                        model,
                    ));
                }
            },
            None => {},
        }
    }

    /// Takes the last transaction off the undo stack and puts it on the redo
    /// stack.
    pub fn pop_undo(&mut self) -> (transaction: Option<Transaction>)
        requires
            old(self)@.wf(),
            old(self)@.depth == 0,
        ensures
            final(self)@ == undo_popped(old(self)@),
            final(self)@.wf(),
            maybe_transaction(transaction) == top(old(self)@.undo_stack),
    {
        match self.undo_stack.pop() {
            Some(transaction) => {
                let copy = transaction.clone();
                let ghost model = transaction@;
                self.redo_stack.push(transaction);
                proof {
                    assert(model == old(self)@.undo_stack.last());
                    assert(self@.undo_stack =~= old(self)@.undo_stack.drop_last());
                    assert(self@.redo_stack =~= old(self)@.redo_stack.push(model));
                    assert(edits_filed(old(self)@.undo_stack.last(), self@.ops));
                }
                Some(copy)
            },
            None => None,
        }
    }

    /// Takes the last transaction off the redo stack and puts it on the undo
    /// stack.
    pub fn pop_redo(&mut self) -> (transaction: Option<Transaction>)
        requires
            old(self)@.wf(),
            old(self)@.depth == 0,
        ensures
            final(self)@ == redo_popped(old(self)@),
            final(self)@.wf(),
            maybe_transaction(transaction) == top(old(self)@.redo_stack),
    {
        match self.redo_stack.pop() {
            Some(transaction) => {
                let copy = transaction.clone();
                let ghost model = transaction@;
                self.undo_stack.push(transaction);
                proof {
                    assert(model == old(self)@.redo_stack.last());
                    assert(self@.redo_stack =~= old(self)@.redo_stack.drop_last());
                    assert(self@.undo_stack =~= old(self)@.undo_stack.push(model));
                    assert(edits_filed(old(self)@.redo_stack.last(), self@.ops));
                }
                Some(copy)
            },
            None => None,
        }
    }
}

} // verus!
