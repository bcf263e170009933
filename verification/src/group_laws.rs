//! Transactions that follow each other soon: when they are joined, and what is
//! undone together.

use std::sync::Arc;

use vstd::prelude::*;

use crate::clock::{Local, same_version};
use crate::delivery_laws::clock_ahead;
use crate::fragment::local_of;
use crate::history::{
    HistoryModel, TransactionModel, grouped, grouped_len, joins, law_group_leaves_last_apart,
    lemma_grouped_len, new_history, transaction_ended, with_edits, with_transactions,
};
use crate::history_laws::{lemma_joins_last, made_by};
use crate::indent::AutoindentRequest;
use crate::operation::EditModel;
use crate::state::{State, edit_applied, edited_within, redone_once, started, undone_once};
use crate::transaction_laws::{
    Change, edited_in_turn, filed, law_undo_and_redo_last_transaction, lemma_edit_transaction,
    same_text,
};
use crate::undo_laws::{can_edit, law_edit_keeps_settled, settled};

verus! {

/// A new buffer joins edits that follow each other within three tenths of a
/// second.
pub proof fn law_new_history_joins_within(base_text: Seq<char>)
    ensures
        new_history(base_text).group_interval == 300_000_000,
        new_history(base_text).undo_stack.len() == 0,
        new_history(base_text).redo_stack.len() == 0,
{
}

/// The last two transactions are joined exactly if the later one began no more
/// than the interval after the earlier one ended, and had seen just what the
/// earlier one left.
pub proof fn law_group_goes_by_the_pause(h: HistoryModel)
    requires
        h.undo_stack.len() >= 2,
    ensures
        ({
            let n = h.undo_stack.len() as int;
            let earlier = h.undo_stack[n - 2];
            let later = h.undo_stack[n - 1];
            grouped(h).undo_stack.len() < n <==> {
                &&& later.first_edit_at - earlier.last_edit_at <= h.group_interval
                &&& same_version(later.start, earlier.end)
            }
        }),
{
    let n = h.undo_stack.len() as int;
    lemma_grouped_len(h.undo_stack, h.group_interval, n - 1);
}

/// The edits of the transactions from `from` to `n`, one after the other.
pub open spec fn edits_between(stack: Seq<TransactionModel>, from: int, n: int) -> Seq<Local>
    decreases n - from,
{
    if n <= from {
        Seq::empty()
    } else {
        edits_between(stack, from, n - 1) + stack[n - 1].edits
    }
}

proof fn lemma_with_edits(
    t: TransactionModel,
    edits: Seq<Local>,
    ops: Map<Local, EditModel>,
    n: int,
)
    requires
        0 <= n <= edits.len(),
        forall|i: int|
            0 <= i < edits.len() ==> local_of(ops[#[trigger] edits[i]].timestamp) == edits[i],
    ensures
        with_edits(t, edits, ops, n).edits == t.edits + edits.take(n),
        with_edits(t, edits, ops, n).start == t.start,
        with_edits(t, edits, ops, n).first_edit_at == t.first_edit_at,
        with_edits(t, edits, ops, n).buffer_was_dirty == t.buffer_was_dirty,
        with_edits(t, edits, ops, n).selections_before == t.selections_before,
    decreases n,
{
    if n > 0 {
        lemma_with_edits(t, edits, ops, n - 1);
        assert(edits.take(n) =~= edits.take(n - 1).push(edits[n - 1]));
        assert(local_of(ops[edits[n - 1]].timestamp) == edits[n - 1]);
        assert(t.edits + edits.take(n) =~= (t.edits + edits.take(n - 1)).push(edits[n - 1]));
    } else {
        assert(t.edits + edits.take(0) =~= t.edits);
    }
}

proof fn lemma_with_transactions(
    t: TransactionModel,
    stack: Seq<TransactionModel>,
    ops: Map<Local, EditModel>,
    from: int,
    n: int,
)
    requires
        0 <= from <= n <= stack.len(),
        forall|i: int| 0 <= i < stack.len() ==> named_right(#[trigger] stack[i], ops),
    ensures
        ({
            let all = with_transactions(t, stack, ops, from, n);
            &&& all.edits == t.edits + edits_between(stack, from, n)
            &&& all.start == t.start
            &&& all.first_edit_at == t.first_edit_at
            &&& all.buffer_was_dirty == t.buffer_was_dirty
            &&& all.selections_before == t.selections_before
        }),
    decreases n - from,
{
    if n > from {
        lemma_with_transactions(t, stack, ops, from, n - 1);
        let last = stack[n - 1];
        assert(named_right(last, ops));
        lemma_with_edits(
            with_transactions(t, stack, ops, from, n - 1),
            last.edits,
            ops,
            last.edits.len() as int,
        );
        assert(last.edits.take(last.edits.len() as int) =~= last.edits);
        let past = edits_between(stack, from, n - 1);
        assert(t.edits + past + last.edits =~= t.edits + (past + last.edits));
    } else {
        assert(t.edits + Seq::<Local>::empty() =~= t.edits);
    }
}

/// The edits of the transaction are on file under their own names.
pub open spec fn named_right(t: TransactionModel, ops: Map<Local, EditModel>) -> bool {
    forall|i: int|
        0 <= i < t.edits.len() ==> local_of(ops[#[trigger] t.edits[i]].timestamp) == t.edits[i]
}

/// A transaction that others have been joined to starts where it started, and
/// with the selections that it started with; it ends where and when the newest of
/// them ended, and with the selections of that one; and it holds the edits of all
/// of them, in order. The transactions before it stay as they were.
pub proof fn law_joined_transaction_ends_as_the_newest(h: HistoryModel)
    requires
        h.undo_stack.len() > 0,
        forall|i: int| 0 <= i < h.undo_stack.len() ==> named_right(#[trigger] h.undo_stack[i], h.ops),
    ensures
        ({
            let stack = h.undo_stack;
            let now = grouped(h).undo_stack;
            let m = now.len() as int;
            let top = now[m - 1];
            &&& 0 < m <= stack.len()
            &&& forall|i: int| 0 <= i < m - 1 ==> #[trigger] now[i] == stack[i]
            &&& top.start == stack[m - 1].start
            &&& top.first_edit_at == stack[m - 1].first_edit_at
            &&& top.buffer_was_dirty == stack[m - 1].buffer_was_dirty
            &&& top.selections_before == stack[m - 1].selections_before
            &&& top.end == stack[stack.len() - 1].end
            &&& top.last_edit_at == stack[stack.len() - 1].last_edit_at
            &&& top.selections_after == stack[stack.len() - 1].selections_after
            &&& top.edits == edits_between(stack, m - 1, stack.len() as int)
            &&& grouped(h).redo_stack == h.redo_stack
            &&& grouped(h).ops == h.ops
            &&& grouped(h).depth == h.depth
            &&& grouped(h).group_interval == h.group_interval
        }),
{
    let stack = h.undo_stack;
    let n = stack.len() as int;
    let m = grouped_len(stack, h.group_interval, n);
    lemma_grouped_len(stack, h.group_interval, n);
    if m < n {
        lemma_with_transactions(stack[m - 1], stack, h.ops, m, n);
    }
    lemma_edits_from(stack, m - 1, n);
}

proof fn lemma_edits_from(stack: Seq<TransactionModel>, from: int, n: int)
    requires
        0 <= from < n <= stack.len(),
    ensures
        edits_between(stack, from, n) == stack[from].edits + edits_between(stack, from + 1, n),
    decreases n - from,
{
    if n > from + 1 {
        lemma_edits_from(stack, from, n - 1);
        let a = stack[from].edits;
        let b = edits_between(stack, from + 1, n - 1);
        assert(a + b + stack[n - 1].edits =~= a + (b + stack[n - 1].edits));
    } else {
        assert(edits_between(stack, from, n - 1) =~= Seq::empty());
        assert(Seq::<Local>::empty() + stack[from].edits =~= stack[from].edits + Seq::empty());
    }
}

/// An edit of the visible text: its ranges, its text, when it is made, and what is
/// to be indented after it.
pub type Stroke = (Seq<(int, int)>, Seq<char>, u64, Seq<Arc<AutoindentRequest>>);

/// The buffer after a run of edits, one after the other.
pub open spec fn typed(s: State, run: Seq<Stroke>) -> State
    decreases run.len(),
{
    if run.len() == 0 {
        s
    } else {
        edit_applied(
            typed(s, run.drop_last()),
            run.last().0,
            run.last().1,
            run.last().2,
            run.last().3,
        )
    }
}

/// Each of the edits can be made when its turn comes.
pub open spec fn can_type(s: State, run: Seq<Stroke>) -> bool
    decreases run.len(),
{
    run.len() > 0 ==> can_type(s, run.drop_last()) && can_edit(
        typed(s, run.drop_last()),
        run.last().0,
        run.last().1,
    )
}

/// Each of the edits comes no more than the interval after the one before it.
pub open spec fn without_pause(run: Seq<Stroke>, interval: u64) -> bool {
    forall|i: int| 0 < i < run.len() ==> (#[trigger] run[i]).2 <= run[i - 1].2 + interval
}

/// The last transaction ended more than the interval before a time, or something
/// has happened since.
pub open spec fn after_pause(s: State, now: u64) -> bool {
    s.history.undo_stack.len() > 0 ==> {
        let last = s.history.undo_stack[s.history.undo_stack.len() - 1];
        now > last.last_edit_at + s.history.group_interval || !same_version(s.version, last.end)
    }
}

/// What holds after some edits of a run.
pub open spec fn one_run(
    s: State,
    now: State,
    time: u64,
    o: State,
    changes: Seq<Change>,
) -> bool {
    let stack = now.history.undo_stack;
    let n = stack.len() as int;
    &&& n == s.history.undo_stack.len() + 1
    &&& stack.drop_last() == s.history.undo_stack
    &&& made_by(now, o, changes, stack.last())
    &&& stack.last().end == now.version
    &&& stack.last().last_edit_at == time
    &&& n >= 2 ==> !joins(stack[n - 2], stack[n - 1], now.history.group_interval)
    &&& now.history.group_interval == s.history.group_interval
    &&& now.history.depth == 0
    &&& o.cells == s.cells
    &&& settled(now.cells, now.log, now.version)
}

proof fn lemma_run(s: State, run: Seq<Stroke>) -> (result: (State, Seq<Change>))
    requires
        settled(s.cells, s.log, s.version),
        s.history.depth == 0,
        run.len() > 0,
        can_type(s, run),
        without_pause(run, s.history.group_interval),
        after_pause(s, run[0].2),
    ensures
        one_run(s, typed(s, run), run[run.len() - 1].2, result.0, result.1),
    decreases run.len(),
{
    let past = run.drop_last();
    let x = typed(s, past);
    let stroke = run.last();
    let now = typed(s, run);
    let begun = started(State { pending_autoindent: false, ..x }, None, stroke.2);
    let changes: Seq<Change> = seq![(stroke.0, stroke.1, x.lamport_clock)];
    let stack = x.history.undo_stack;
    let n = stack.len() as int;
    if past.len() > 0 {
        assert forall|i: int| 0 < i < past.len() implies (#[trigger] past[i]).2 <= past[i - 1].2
            + s.history.group_interval by {
            assert(run[i].2 <= run[i - 1].2 + s.history.group_interval);
        }
        let (o, c) = lemma_run(s, past);
        let t = lemma_edit_transaction(x, stroke.0, stroke.1, stroke.2, stroke.3);
        let left = transaction_ended(
            edited_within(begun, stroke.0, stroke.1).history,
            None,
            stroke.2,
        );
        lemma_one_filed(x, begun, stroke, changes);
        law_edit_keeps_settled(begun, stroke.0, stroke.1);
        assert(run[run.len() - 1].2 <= run[run.len() - 2].2 + s.history.group_interval);
        assert(joins(stack.last(), t, x.history.group_interval));
        lemma_joins_last(x, now, begun, changes, t, left, o, c);
        law_group_leaves_last_apart(left);
        (o, c + changes)
    } else {
        assert(x == s);
        let t = lemma_edit_transaction(x, stroke.0, stroke.1, stroke.2, stroke.3);
        let left = transaction_ended(
            edited_within(begun, stroke.0, stroke.1).history,
            None,
            stroke.2,
        );
        law_edit_keeps_settled(begun, stroke.0, stroke.1);
        if n > 0 {
            assert(left.undo_stack[n - 1] == stack[n - 1]);
            assert(!joins(stack[n - 1], t, x.history.group_interval));
        }
        assert(grouped_len(left.undo_stack, left.group_interval, n + 1) == n + 1);
        assert(now.history == left);
        assert(now.history.undo_stack.drop_last() =~= s.history.undo_stack);
        assert(clock_ahead(begun));
        assert(made_by(now, begun, changes, now.history.undo_stack.last()));
        (begun, changes)
    }
}

/// The one edit is on file.
proof fn lemma_one_filed(x: State, begun: State, stroke: Stroke, changes: Seq<Change>)
    requires
        begun == started(State { pending_autoindent: false, ..x }, None, stroke.2),
        changes == seq![(stroke.0, stroke.1, x.lamport_clock)],
        edited_in_turn(begun, changes) == edited_within(begun, stroke.0, stroke.1),
    ensures
        filed(edited_within(begun, stroke.0, stroke.1).history.ops, begun, changes),
{
    assert(changes.drop_last() =~= Seq::<Change>::empty());
    assert(crate::transaction_laws::at_time(begun, x.lamport_clock) =~= begun);
    assert(edited_in_turn(begun, changes.drop_last()) == begun);
    let ops = edited_within(begun, stroke.0, stroke.1).history.ops;
    assert(filed(ops, begun, changes.drop_last()));
}

/// A run of edits, each of which comes no more than the interval after the one
/// before it, with nothing in between, is one transaction however long it goes
/// on: one undo gives back the text before the run, and one redo the text after
/// it.
pub proof fn law_run_is_undone_together(s: State, run: Seq<Stroke>)
    requires
        settled(s.cells, s.log, s.version),
        s.history.depth == 0,
        run.len() > 0,
        can_type(s, run),
        without_pause(run, s.history.group_interval),
        after_pause(s, run[0].2),
    ensures
        ({
            let now = typed(s, run);
            &&& now.history.undo_stack.len() == s.history.undo_stack.len() + 1
            &&& now.history.undo_stack.drop_last() == s.history.undo_stack
            &&& undone_once(now).text() == s.text()
            &&& undone_once(now).history.undo_stack == s.history.undo_stack
            &&& redone_once(undone_once(now)).text() == now.text()
        }),
{
    let now = typed(s, run);
    let (o, changes) = lemma_run(s, run);
    assert(same_text(now, edited_in_turn(o, changes)));
    law_undo_and_redo_last_transaction(o, changes, now);
    assert(o.text() == s.text());
}

/// An edit that comes more than the interval after the one before it stands for
/// itself: it is undone alone.
pub proof fn law_edit_after_pause_is_undone_alone(s: State, stroke: Stroke)
    requires
        settled(s.cells, s.log, s.version),
        s.history.depth == 0,
        can_edit(s, stroke.0, stroke.1),
        after_pause(s, stroke.2),
    ensures
        ({
            let now = edit_applied(s, stroke.0, stroke.1, stroke.2, stroke.3);
            &&& now.history.undo_stack.len() == s.history.undo_stack.len() + 1
            &&& undone_once(now).text() == s.text()
        }),
{
    let run: Seq<Stroke> = seq![stroke];
    assert(run.drop_last() =~= Seq::<Stroke>::empty());
    assert(typed(s, run.drop_last()) == s);
    assert(can_type(s, run.drop_last()));
    assert(can_type(s, run));
    law_run_is_undone_together(s, run);
}

} // verus!
