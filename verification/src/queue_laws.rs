//! What becomes of operations that come from other replicas: which are applied, which
//! wait, and what is left of those that came twice.

use vstd::prelude::*;

use crate::clock::{Lamport, Local, observes, observing};
use crate::delivery_laws::{law_queue_holds_what_it_is_given, lemma_queued_all_in_order};
use crate::history::TransactionModel;
use crate::operation::{EditModel, OperationModel, lamport_timestamp_of};
use crate::operation_queue::{enqueued, in_order, queued_all, sorted_ops};
use crate::state::{
    State, applied, can_apply, first_run, flush_run, flushed, op_fits, run_ops, run_queued, undo_of,
    undone_or_redone,
};
use crate::undo::Undo;
use crate::undo_map::log_with;

verus! {

/// Operations are in order if each has a later time than those before it: a larger one,
/// or the same one of a larger replica.
pub proof fn law_operations_in_order(ops: Seq<OperationModel>)
    ensures
        in_order(ops) <==> forall|i: int, j: int|
            0 <= i < j < ops.len() ==> {
                let a = lamport_timestamp_of(#[trigger] ops[i]);
                let b = lamport_timestamp_of(#[trigger] ops[j]);
                a.value < b.value || (a.value == b.value && a.replica_id < b.replica_id)
            },
{
}

/// One of the first `n` operations has the time.
pub open spec fn has_time(ops: Seq<OperationModel>, t: Lamport, n: int) -> bool {
    exists|i: int| 0 <= i < n && i < ops.len() && lamport_timestamp_of(#[trigger] ops[i]) == t
}

/// The operation is the first one of its time among the first `n`.
pub open spec fn is_first(ops: Seq<OperationModel>, o: OperationModel, n: int) -> bool {
    exists|i: int|
        0 <= i < n && i < ops.len() && #[trigger] ops[i] == o && !has_time(
            ops,
            lamport_timestamp_of(o),
            i,
        )
}

proof fn lemma_held_time(ops: Seq<OperationModel>, t: Lamport)
    ensures
        (exists|i: int| 0 <= i < ops.len() && lamport_timestamp_of(#[trigger] ops[i]) == t)
            <==> exists|o: OperationModel| #[trigger]
            ops.contains(o) && lamport_timestamp_of(o) == t,
{
    if exists|i: int| 0 <= i < ops.len() && lamport_timestamp_of(#[trigger] ops[i]) == t {
        let i = choose|i: int| 0 <= i < ops.len() && lamport_timestamp_of(#[trigger] ops[i]) == t;
        assert(ops.contains(ops[i]));
    }
}

proof fn lemma_sorted(ops: Seq<OperationModel>, n: int)
    requires
        0 <= n <= ops.len(),
    ensures
        in_order(queued_all(Seq::empty(), ops, false, n)),
        forall|o: OperationModel| #[trigger]
            queued_all(Seq::empty(), ops, false, n).contains(o) <==> is_first(ops, o, n),
    decreases n,
{
    let none = Seq::<OperationModel>::empty();
    let now = queued_all(none, ops, false, n);
    lemma_queued_all_in_order(none, ops, false, n);
    if n > 0 {
        lemma_sorted(ops, n - 1);
        let past = queued_all(none, ops, false, n - 1);
        let op = ops[n - 1];
        let t = lamport_timestamp_of(op);
        lemma_held_time(past, t);
        let taken = exists|i: int|
            0 <= i < past.len() && lamport_timestamp_of(#[trigger] past[i]) == t;
        assert(taken <==> has_time(ops, t, n - 1)) by {
            if taken {
                let o = choose|o: OperationModel| #[trigger]
                    past.contains(o) && lamport_timestamp_of(o) == t;
                let i = choose|i: int|
                    0 <= i < n - 1 && i < ops.len() && #[trigger] ops[i] == o && !has_time(
                        ops,
                        lamport_timestamp_of(o),
                        i,
                    );
                assert(lamport_timestamp_of(ops[i]) == t);
            }
            if has_time(ops, t, n - 1) {
                lemma_first_of_time(ops, t, n - 1);
                let o = choose|o: OperationModel| #[trigger]
                    is_first(ops, o, n - 1) && lamport_timestamp_of(o) == t;
                assert(past.contains(o));
            }
        }
        assert forall|o: OperationModel| #[trigger] now.contains(o) <==> is_first(ops, o, n) by {
            law_queue_holds_what_it_is_given(past, op, false, o);
            assert(past.contains(o) <==> is_first(ops, o, n - 1));
            if is_first(ops, o, n - 1) {
                let i = choose|i: int|
                    0 <= i < n - 1 && i < ops.len() && #[trigger] ops[i] == o && !has_time(
                        ops,
                        lamport_timestamp_of(o),
                        i,
                    );
                assert(ops[i] == o);
                assert(is_first(ops, o, n));
            }
            if is_first(ops, o, n) && !is_first(ops, o, n - 1) {
                let i = choose|i: int|
                    0 <= i < n && i < ops.len() && #[trigger] ops[i] == o && !has_time(
                        ops,
                        lamport_timestamp_of(o),
                        i,
                    );
                assert(i == n - 1);
            }
            if o == op && !taken {
                assert(ops[n - 1] == o && !has_time(ops, lamport_timestamp_of(o), n - 1));
                assert(is_first(ops, o, n));
            }
        }
    }
}

proof fn lemma_first_of_time(ops: Seq<OperationModel>, t: Lamport, n: int)
    requires
        0 <= n <= ops.len(),
        has_time(ops, t, n),
    ensures
        exists|o: OperationModel| #[trigger] is_first(ops, o, n) && lamport_timestamp_of(o) == t,
    decreases n,
{
    if n > 0 {
        if has_time(ops, t, n - 1) {
            lemma_first_of_time(ops, t, n - 1);
            let o = choose|o: OperationModel| #[trigger]
                is_first(ops, o, n - 1) && lamport_timestamp_of(o) == t;
            let i = choose|i: int|
                0 <= i < n - 1 && i < ops.len() && #[trigger] ops[i] == o && !has_time(
                    ops,
                    lamport_timestamp_of(o),
                    i,
                );
            assert(ops[i] == o);
            assert(is_first(ops, o, n));
        } else {
            assert(lamport_timestamp_of(ops[n - 1]) == t);
            assert(is_first(ops, ops[n - 1], n));
        }
    }
}

proof fn lemma_replaced(ops: Seq<OperationModel>, more: Seq<OperationModel>, n: int)
    requires
        in_order(ops),
        in_order(more),
        0 <= n <= more.len(),
    ensures
        in_order(queued_all(ops, more, true, n)),
        forall|o: OperationModel| #[trigger]
            queued_all(ops, more, true, n).contains(o) <==> more.take(n).contains(o) || (
            ops.contains(o) && !has_time(more, lamport_timestamp_of(o), n)),
    decreases n,
{
    let now = queued_all(ops, more, true, n);
    lemma_queued_all_in_order(ops, more, true, n);
    if n > 0 {
        lemma_replaced(ops, more, n - 1);
        let past = queued_all(ops, more, true, n - 1);
        let op = more[n - 1];
        let t = lamport_timestamp_of(op);
        lemma_held_time(past, t);
        assert forall|o: OperationModel| #[trigger]
            now.contains(o) <==> more.take(n).contains(o) || (ops.contains(o) && !has_time(
            more,
            lamport_timestamp_of(o),
            n,
        )) by {
            law_queue_holds_what_it_is_given(past, op, true, o);
            assert(more.take(n) =~= more.take(n - 1).push(op));
            assert(past.contains(o) <==> more.take(n - 1).contains(o) || (ops.contains(o)
                && !has_time(more, lamport_timestamp_of(o), n - 1)));
            assert(more.take(n).contains(o) <==> more.take(n - 1).contains(o) || o == op) by {
                if more.take(n - 1).contains(o) {
                    let i = choose|i: int| 0 <= i < n - 1 && #[trigger] more.take(n - 1)[i] == o;
                    assert(more.take(n)[i] == o);
                }
                if o == op {
                    assert(more.take(n)[n - 1] == o);
                }
                if more.take(n).contains(o) && o != op {
                    let i = choose|i: int| 0 <= i < n && #[trigger] more.take(n)[i] == o;
                    assert(more.take(n - 1)[i] == o);
                }
            }
            assert(has_time(more, lamport_timestamp_of(o), n) <==> has_time(
                more,
                lamport_timestamp_of(o),
                n - 1,
            ) || lamport_timestamp_of(o) == t) by {
                if lamport_timestamp_of(o) == t {
                    assert(lamport_timestamp_of(more[n - 1]) == t);
                }
                if has_time(more, lamport_timestamp_of(o), n - 1) {
                    let i = choose|i: int|
                        0 <= i < n - 1 && i < more.len() && lamport_timestamp_of(
                            #[trigger] more[i],
                        ) == lamport_timestamp_of(o);
                    assert(lamport_timestamp_of(more[i]) == lamport_timestamp_of(o));
                }
            }
            if more.take(n - 1).contains(o) {
                let i = choose|i: int| 0 <= i < n - 1 && #[trigger] more.take(n - 1)[i] == o;
                assert(more[i] == o);
                assert(lamport_timestamp_of(more[i]) != lamport_timestamp_of(more[n - 1]));
            }
            if past.contains(o) && lamport_timestamp_of(o) == t {
                assert(exists|i: int|
                    0 <= i < past.len() && lamport_timestamp_of(#[trigger] past[i]) == t);
            }
        }
    } else {
        assert(more.take(0) =~= Seq::empty());
        assert forall|o: OperationModel| #[trigger]
            now.contains(o) <==> more.take(n).contains(o) || (ops.contains(o) && !has_time(
            more,
            lamport_timestamp_of(o),
            n,
        )) by {}
    }
}

/// A queue that is given more operations holds, of those of one time among them, the
/// first; those that waited before stay unless one of the same time has come. They are
/// in order.
pub proof fn law_queue_takes_more(
    ops: Seq<OperationModel>,
    more: Seq<OperationModel>,
    o: OperationModel,
)
    requires
        in_order(ops),
    ensures
        in_order(enqueued(ops, more)),
        enqueued(ops, more).contains(o) <==> is_first(more, o, more.len() as int) || (
        ops.contains(o) && !has_time(more, lamport_timestamp_of(o), more.len() as int)),
{
    let n = more.len() as int;
    let sorted = sorted_ops(more);
    let t = lamport_timestamp_of(o);
    lemma_sorted(more, n);
    lemma_replaced(ops, sorted, sorted.len() as int);
    assert(sorted.take(sorted.len() as int) =~= sorted);
    assert(sorted.contains(o) <==> is_first(more, o, n));
    assert(has_time(sorted, t, sorted.len() as int) <==> has_time(more, t, n)) by {
        if has_time(sorted, t, sorted.len() as int) {
            let i = choose|i: int|
                0 <= i < sorted.len() && i < sorted.len() && lamport_timestamp_of(
                    #[trigger] sorted[i],
                ) == t;
            assert(sorted.contains(sorted[i]));
            assert(is_first(more, sorted[i], n));
            let j = choose|j: int|
                0 <= j < n && j < more.len() && #[trigger] more[j] == sorted[i] && !has_time(
                    more,
                    lamport_timestamp_of(sorted[i]),
                    j,
                );
            assert(lamport_timestamp_of(more[j]) == t);
        }
        if has_time(more, t, n) {
            lemma_first_of_time(more, t, n);
            let f = choose|f: OperationModel| #[trigger]
                is_first(more, f, n) && lamport_timestamp_of(f) == t;
            assert(sorted.contains(f));
            let i = choose|i: int| 0 <= i < sorted.len() && sorted[i] == f;
            assert(lamport_timestamp_of(sorted[i]) == t);
        }
    }
}

/// Operations are tried one after the other. One that can be applied and fits is
/// applied; one that cannot be applied yet waits, and those of its replica that follow
/// wait with it; one that does not fit ends the run.
pub proof fn law_operations_run_in_turn(s: State, ops: Seq<OperationModel>, n: int)
    requires
        0 <= n < ops.len(),
    ensures
        run_ops(s, ops, 0).state == s,
        run_ops(s, ops, 0).waiting.len() == 0,
        !run_ops(s, ops, 0).failed,
        ({
            let past = run_ops(s, ops, n);
            let now = run_ops(s, ops, n + 1);
            let op = ops[n];
            let r = lamport_timestamp_of(op).replica_id;
            &&& past.failed ==> now == past
            &&& !past.failed && can_apply(past.state, op) && op_fits(past.state, op) ==> {
                &&& now.state == applied(past.state, op)
                &&& now.waiting == past.waiting
                &&& !now.failed
            }
            &&& !past.failed && can_apply(past.state, op) && !op_fits(past.state, op) ==> {
                &&& now.state == past.state
                &&& now.failed
            }
            &&& !past.failed && !can_apply(past.state, op) ==> {
                &&& now.waiting.len() == past.waiting.len() + 1
                &&& now.waiting.take(past.waiting.len() as int) == past.waiting
                &&& now.waiting[past.waiting.len() as int] == op
                &&& now.state.cells == past.state.cells
                &&& now.state.version == past.state.version
                &&& now.state.deferred_replicas == past.state.deferred_replicas.insert(r)
                &&& !now.failed
            }
        }),
{
    let past = run_ops(s, ops, n);
    let now = run_ops(s, ops, n + 1);
    if !past.failed && !can_apply(past.state, ops[n]) {
        assert(now.waiting.take(past.waiting.len() as int) =~= past.waiting);
    }
}

/// Operations that come are tried first, with those that wait left alone; what cannot be
/// applied joins those that wait. Then all that wait are tried again, in order, as if no
/// replica had any waiting; what cannot be applied then goes on waiting.
pub proof fn law_waiting_operations_are_tried_again(s: State, ops: Seq<OperationModel>)
    ensures
        ({
            let first = first_run(s, ops);
            let start = State { pending_autoindent: false, ..s };
            &&& first == run_ops(start, ops, ops.len() as int)
            &&& run_queued(first).deferred_ops == enqueued(first.state.deferred_ops, first.waiting)
            &&& run_queued(first).cells == first.state.cells
        }),
        ({
            let waiting = s.deferred_ops;
            let start = State {
                deferred_replicas: Set::empty(),
                deferred_ops: Seq::empty(),
                ..s
            };
            let again = run_ops(start, waiting, waiting.len() as int);
            &&& flush_run(s) == again
            &&& flushed(s).cells == again.state.cells
            &&& flushed(s).version == again.state.version
            &&& flushed(s).deferred_replicas == again.state.deferred_replicas
            &&& !again.failed ==> flushed(s).deferred_ops == enqueued(
                again.state.deferred_ops,
                again.waiting,
            )
        }),
{
}

/// An edit of another replica is applied once: it is seen and on file from then on, and
/// the clocks are past it. One that has been seen changes nothing.
pub proof fn law_edit_is_applied_once(s: State, edit: EditModel)
    requires
        edit.timestamp.local < u32::MAX,
        edit.timestamp.lamport < u32::MAX,
        s.lamport_clock.value < u32::MAX,
    ensures
        ({
            let id = Local { replica_id: edit.timestamp.replica_id, value: edit.timestamp.local };
            let now = applied(s, OperationModel::Edit(edit));
            &&& observes(s.version, id) ==> now == s
            &&& !observes(s.version, id) ==> {
                &&& observes(now.version, id)
                &&& now.version == observing(s.version, id)
                &&& now.history.ops.contains_key(id)
                &&& now.history.ops[id] == edit
                &&& now.history.undo_stack == s.history.undo_stack
                &&& now.selections == s.selections
                &&& edit.ranges.len() == 0 ==> now.cells == s.cells
                &&& edit.ranges.len() > 0 ==> now.lamport_clock.value > edit.timestamp.lamport
                    && now.lamport_clock.value > s.lamport_clock.value
                &&& edit.ranges.len() > 0 && edit.timestamp.replica_id == s.local_clock.replica_id
                    ==> now.local_clock.value > edit.timestamp.local
            }
            &&& applied(now, OperationModel::Edit(edit)) == now
        }),
{
}

/// An undo of another replica is applied once: it is seen and counted from then on, and
/// the clock is past it. One that has been seen changes nothing.
pub proof fn law_undo_is_applied_once(s: State, undo: Undo, lamport: Lamport)
    requires
        lamport.value < u32::MAX,
        s.lamport_clock.value < u32::MAX,
    ensures
        ({
            let op = OperationModel::Undo { undo, lamport };
            let now = applied(s, op);
            &&& observes(s.version, undo.id) ==> now == s
            &&& !observes(s.version, undo.id) ==> {
                &&& observes(now.version, undo.id)
                &&& now.version == observing(s.version, undo.id)
                &&& now.log == log_with(s.log, undo.id, undo.counts)
                &&& now.lamport_clock.value > lamport.value
                &&& now.lamport_clock.value > s.lamport_clock.value
                &&& now.history == s.history
                &&& now.selections == s.selections
            }
            &&& applied(now, op) == now
        }),
{
}

/// An undo of the replica's own is an operation like any other: both clocks move on by
/// one, and it has been seen and counted.
pub proof fn law_own_undo(s: State, t: TransactionModel)
    requires
        s.local_clock.value < u32::MAX,
        s.lamport_clock.value < u32::MAX,
    ensures
        ({
            let now = undone_or_redone(s, t);
            &&& now.local_clock.value == s.local_clock.value + 1
            &&& now.lamport_clock.value == s.lamport_clock.value + 1
            &&& now.local_clock.replica_id == s.local_clock.replica_id
            &&& observes(now.version, s.local_clock)
            &&& now.version == observing(s.version, s.local_clock)
            &&& now.log == log_with(s.log, s.local_clock, undo_of(s, t).counts)
            &&& now.selections == s.selections
            &&& now.history == s.history
        }),
{
}

} // verus!
