//! Laws of delivery: operations that come too early wait, and those that wait
//! stay in order.

use vstd::prelude::*;

use crate::buffer::new_state;
use crate::clock::{ReplicaId, Version, after, exceeds, includes, observes, seen_of};
use crate::file::FileModel;
use crate::history::{
    HistoryModel, ended_transaction, redo_popped, transaction_ended, transaction_started,
    undo_popped,
};
use crate::operation::{OperationModel, SelectionModel, SelectionSetId, lamport_timestamp_of};
use crate::operation_queue::{
    enqueued, in_order, lemma_queued_in_order, lemma_slot, queued, queued_all, slot_from,
    sorted_ops,
};
use crate::state::{
    State, applied, can_apply, edited_within, first_run, flush_run, flushed, op_fits, ops_applied,
    ops_fail, run_ops, run_queued,
};
use crate::syntax::Language;

verus! {

pub proof fn lemma_queued_all_in_order(
    ops: Seq<OperationModel>,
    more: Seq<OperationModel>,
    replace: bool,
    n: int,
)
    requires
        in_order(ops),
    ensures
        in_order(queued_all(ops, more, replace, n)),
    decreases n,
{
    if n > 0 {
        lemma_queued_all_in_order(ops, more, replace, n - 1);
        lemma_queued_in_order(queued_all(ops, more, replace, n - 1), more[n - 1], replace);
    }
}

/// Operations that wait stay in the order in which they were made, whatever the
/// order in which they came.
pub proof fn law_queue_stays_in_order(ops: Seq<OperationModel>, more: Seq<OperationModel>)
    requires
        in_order(ops),
    ensures
        in_order(enqueued(ops, more)),
{
    let sorted = sorted_ops(more);
    lemma_queued_all_in_order(ops, sorted, true, sorted.len() as int);
}

proof fn lemma_queue_one(op: OperationModel)
    ensures
        enqueued(Seq::empty(), seq![op]) == seq![op],
        sorted_ops(seq![op]) == seq![op],
        sorted_ops(Seq::empty()) == Seq::<OperationModel>::empty(),
        enqueued(seq![op], Seq::empty()) == seq![op],
{
    let none = Seq::<OperationModel>::empty();
    assert(slot_from(none, lamport_timestamp_of(op), 0) == 0);
    assert(queued(none, op, false) =~= seq![op]);
    assert(queued(none, op, true) =~= seq![op]);
    assert(queued_all(none, seq![op], false, 0) == none);
    assert(queued_all(none, seq![op], true, 0) == none);
    assert(queued_all(none, seq![op], false, 1) == queued(none, op, false));
    assert(queued_all(none, seq![op], true, 1) == queued(none, op, true));
    assert(queued_all(none, none, false, 0) == none);
    assert(queued_all(seq![op], none, true, 0) == seq![op]);
}

/// The buffer while an operation waits.
pub open spec fn holding(s: State, op: OperationModel) -> State {
    State {
        pending_autoindent: false,
        deferred_ops: seq![op],
        deferred_replicas: Set::empty().insert(lamport_timestamp_of(op).replica_id),
        ..s
    }
}

/// An operation that cannot be applied yet waits, and nothing else changes.
pub proof fn law_early_operations_wait(s: State, op: OperationModel)
    requires
        s.deferred_ops.len() == 0,
        s.deferred_replicas == Set::<u16>::empty(),
        !can_apply(s, op),
    ensures
        !ops_fail(s, seq![op]),
        ops_applied(s, seq![op]) == holding(s, op),
{
    let ops = seq![op];
    let start = State { pending_autoindent: false, ..s };
    let r = lamport_timestamp_of(op).replica_id;
    lemma_queue_one(op);
    assert(s.deferred_ops =~= Seq::empty());
    assert(run_ops(start, ops, 0).state == start);
    assert(!can_apply(start, op));
    let run = first_run(s, ops);
    assert(run == run_ops(start, ops, 1));
    assert(run.waiting =~= seq![op]);
    let queue = run_queued(run);
    assert(queue.deferred_ops == seq![op]);
    let empty = State { deferred_replicas: Set::empty(), deferred_ops: Seq::empty(), ..queue };
    assert(run_ops(empty, seq![op], 0).state == empty);
    assert(!can_apply(empty, op));
    let flush = flush_run(queue);
    assert(flush == run_ops(empty, seq![op], 1));
    assert(flush.waiting =~= seq![op]);
    assert(flushed(queue) =~= holding(s, op));
    assert(holding(s, op).changes_since(s.version).len() == 0);
}

/// A transaction in which nothing has been edited leaves no trace.
pub proof fn law_empty_transaction_leaves_no_trace(
    h: HistoryModel,
    start: Version,
    was_dirty: bool,
    before: Option<(SelectionSetId, Seq<SelectionModel>)>,
    after: Option<(SelectionSetId, Seq<SelectionModel>)>,
    begun_at: u64,
    ended_at: u64,
)
    requires
        h.depth >= 0,
    ensures
        ({
            let begun = transaction_started(h, start, was_dirty, before, begun_at);
            &&& h.depth == 0 ==> ended_transaction(begun, after, ended_at) is None
            &&& transaction_ended(begun, after, ended_at) == h
        }),
{
    let begun = transaction_started(h, start, was_dirty, before, begun_at);
    if h.depth == 0 {
        assert(begun.undo_stack.last().ranges.len() == 0);
        assert(begun.undo_stack.drop_last() =~= h.undo_stack);
    }
    assert(transaction_ended(begun, after, ended_at) =~= h);
}

/// What is taken off one of the stacks goes onto the other, and comes back from
/// there.
pub proof fn law_undo_and_redo_stacks(h: HistoryModel)
    ensures
        h.undo_stack.len() > 0 ==> redo_popped(undo_popped(h)) == h,
        h.redo_stack.len() > 0 ==> undo_popped(redo_popped(h)) == h,
{
    if h.undo_stack.len() > 0 {
        assert(h.undo_stack.drop_last().push(h.undo_stack.last()) =~= h.undo_stack);
        assert(redo_popped(undo_popped(h)) =~= h);
    }
    if h.redo_stack.len() > 0 {
        assert(h.redo_stack.drop_last().push(h.redo_stack.last()) =~= h.redo_stack);
        assert(undo_popped(redo_popped(h)) =~= h);
    }
}

/// The next operation of the replica is one that nobody has seen.
pub open spec fn clock_ahead(s: State) -> bool {
    !observes(s.version, s.local_clock)
}

/// The clock of a buffer stays ahead of its version: it is so in a new buffer,
/// after an edit, which has then been seen, and after whatever edits come from
/// anywhere and whatever undos come from other replicas.
pub proof fn law_clock_stays_ahead(
    s: State,
    ranges: Seq<(int, int)>,
    text: Seq<char>,
    op: OperationModel,
)
    requires
        clock_ahead(s),
        s.local_clock.replica_id == s.replica_id,
        s.local_clock.value < u32::MAX,
        op_fits(s, op),
        match op {
            OperationModel::Edit(edit) => edit.timestamp.replica_id == s.replica_id
                ==> edit.ranges.len() > 0,
            OperationModel::Undo { undo, lamport } => undo.id.replica_id != s.replica_id,
            _ => true,
        },
    ensures
        clock_ahead(edited_within(s, ranges, text)),
        exceeds(edited_within(s, ranges, text).version, s.version),
        clock_ahead(applied(s, op)),
{
    let id = s.local_clock;
    let now = edited_within(s, ranges, text);
    assert(seen_of(now.version, id.replica_id) > seen_of(s.version, id.replica_id));
    assert(!includes(s.version, now.version));
}

/// The clock of a new buffer is ahead of its version.
pub proof fn law_new_clock_is_ahead(
    replica_id: ReplicaId,
    history: HistoryModel,
    file: Option<FileModel>,
    remote_id: u64,
    language: Option<Language>,
)
    ensures
        clock_ahead(new_state(replica_id, history, file, remote_id, language)),
{
}

/// A queue gets one more operation: none is lost, and only that one is added. Where one
/// of the same time waits already, that one stays, or gives way if it is to be
/// replaced.
pub proof fn law_queue_holds_what_it_is_given(
    ops: Seq<OperationModel>,
    op: OperationModel,
    replace: bool,
    o: OperationModel,
)
    requires
        in_order(ops),
    ensures
        ({
            let now = queued(ops, op, replace);
            let t = lamport_timestamp_of(op);
            let taken = exists|i: int|
                0 <= i < ops.len() && lamport_timestamp_of(#[trigger] ops[i]) == t;
            &&& in_order(now)
            &&& !taken ==> (now.contains(o) <==> ops.contains(o) || o == op)
            &&& taken && !replace ==> now == ops
            &&& taken && replace ==> (now.contains(o) <==> o == op || (ops.contains(o)
                && lamport_timestamp_of(o) != t))
        }),
{
    let t = lamport_timestamp_of(op);
    let now = queued(ops, op, replace);
    lemma_queued_in_order(ops, op, replace);
    lemma_slot(ops, t, 0);
    let s = slot_from(ops, t, 0);
    let found = s < ops.len() && lamport_timestamp_of(ops[s]) == t;
    if exists|i: int| 0 <= i < ops.len() && lamport_timestamp_of(#[trigger] ops[i]) == t {
        let i = choose|i: int| 0 <= i < ops.len() && lamport_timestamp_of(#[trigger] ops[i]) == t;
        if i < s {
            assert(after(t, lamport_timestamp_of(ops[i])));
        }
        if i > s {
            assert(after(lamport_timestamp_of(ops[i]), lamport_timestamp_of(ops[s])));
        }
        assert(found);
    }
    assert(now.len() > s ==> (found && !replace) || now[s] == op);
    if now.contains(o) {
        let k = now.index_of(o);
        if found {
            if k != s {
                assert(ops[k] == o);
                if k < s {
                    assert(after(lamport_timestamp_of(ops[s]), lamport_timestamp_of(ops[k])));
                } else {
                    assert(after(lamport_timestamp_of(ops[k]), lamport_timestamp_of(ops[s])));
                }
            }
        } else if k < s {
            assert(ops[k] == o);
        } else if k > s {
            assert(ops[k - 1] == o);
        }
    }
    if ops.contains(o) {
        let k = ops.index_of(o);
        if found {
            if k != s {
                assert(now[k] == o);
            }
        } else if k < s {
            assert(now[k] == o);
        } else {
            assert(now[k + 1] == o);
        }
    }
}

} // verus!
