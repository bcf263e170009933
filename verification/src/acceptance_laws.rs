//! Edits that can be applied in some order are accepted in every order, and with
//! whatever undos in between.

use vstd::prelude::*;

use crate::batch_laws::{
    after_batches, all_new, all_ops, at_rest, batches_fit, complete, in_own_order,
    law_batches_converge, lemma_enqueued, lemma_plus, may_come_first, own, reopened, timed,
    told_apart, undos_made, version_of,
};
use crate::clock::{observes, observing, same_version, seen_of};
use crate::converge::{edit_done, unaware};
use crate::delivery_laws::law_queue_stays_in_order;
use crate::document::seen_rank;
use crate::fit_laws::{
    cuts_between, edits_fit, lemma_cuts_after, lemma_edit_len, lemma_edit_uniform, lemma_edits_len,
    lemma_front_fits, lemma_shape_all, same_shape, uniform,
};
use crate::fragment::lamport_of;
use crate::operation::{EditModel, OperationModel, bytes_of, lamport_timestamp_of};
use crate::operation_queue::{enqueued, in_order};
use crate::replica_laws::{bare, changes_text, lemma_applied, logs_agree, name_of};
use crate::replicas::{
    edits_done, fits_in, in_causal_order, law_buffers_commute, lemma_applied_edit,
};
use crate::state::{
    State, applied, can_apply, edit_fits, first_run, flush_run, op_fits, ops_applied, ops_fail,
    remote_edit_applied, run_ops, run_queued,
};
use crate::undo_laws::settled;
use crate::weave::{cuttable, lemma_plain_plan, passable, seek};

verus! {

/// What is still to come: edits, in an order in which they can be applied, and
/// undos.
pub ghost struct Left {
    pub edits: Seq<EditModel>,
    pub undos: Set<OperationModel>,
}

impl Left {
    /// The operation is still to come.
    pub open spec fn holds(self, op: OperationModel) -> bool {
        match op {
            OperationModel::Edit(e) => self.edits.contains(e),
            OperationModel::Undo { undo, lamport } => self.undos.contains(op),
            _ => false,
        }
    }

    pub open spec fn size(self) -> int {
        (self.edits.len() + self.undos.len()) as int
    }

    /// What is still to come after one of the operations.
    pub open spec fn without(self, op: OperationModel) -> Left {
        match op {
            OperationModel::Edit(e) => Left {
                edits: self.edits.remove(self.edits.index_of(e)),
                ..self
            },
            _ => Left { undos: self.undos.remove(op), ..self },
        }
    }

    proof fn lemma_without(self, op: OperationModel)
        requires
            self.holds(op),
            self.edits.no_duplicates(),
            self.undos.finite(),
        ensures
            forall|f: OperationModel| #[trigger]
                self.without(op).holds(f) <==> self.holds(f) && f != op,
            self.without(op).size() == self.size() - 1,
            self.without(op).edits.no_duplicates(),
            self.without(op).undos.finite(),
    {
        match op {
            OperationModel::Edit(e) => {
                let j = self.edits.index_of(e);
                let rest = self.edits.remove(j);
                assert forall|f: EditModel| #[trigger] rest.contains(f) <==> self.edits.contains(f)
                    && f != e by {
                    if rest.contains(f) {
                        let k = rest.index_of(f);
                        if k < j {
                            assert(self.edits[k] == f);
                        } else {
                            assert(self.edits[k + 1] == f);
                        }
                    }
                    if self.edits.contains(f) && f != e {
                        let k = self.edits.index_of(f);
                        if k < j {
                            assert(rest[k] == f);
                        } else {
                            assert(rest[k - 1] == f);
                        }
                    }
                }
                assert forall|f: OperationModel| #[trigger] self.without(op).holds(f)
                    <==> self.holds(f) && f != op by {}
            },
            _ => {
                assert forall|f: OperationModel| #[trigger] self.without(op).holds(f)
                    <==> self.holds(f) && f != op by {}
            },
        }
    }
}

/// The clocks can be moved past the operation, and past `n` more; an undo has
/// ranges.
pub open spec fn has_time(op: OperationModel, n: int) -> bool {
    &&& lamport_timestamp_of(op).value + n < u32::MAX
    &&& name_of(op).value < u32::MAX
    &&& op matches OperationModel::Undo { undo, lamport } ==> undo.ranges.len() > 0
}

/// The edits can be applied, in the order given, and there is room for all that
/// is still to come. None of it has been seen, and no two operations were made at
/// the same time.
pub open spec fn leaves(x: State, left: Left) -> bool {
    &&& uniform(x.cells)
    &&& edits_fit(x.cells, x.log, left.edits)
    &&& in_causal_order(left.edits)
    &&& left.edits.no_duplicates()
    &&& left.undos.finite()
    &&& edits_done(x.cells, x.log, left.edits).len() < usize::MAX
    &&& x.lamport_clock.value + left.size() < u32::MAX
    &&& forall|op: OperationModel| #[trigger]
        left.holds(op) ==> has_time(op, left.size()) && !observes(x.version, name_of(op))
    &&& forall|a: OperationModel, b: OperationModel| #[trigger]
        left.holds(a) && #[trigger] left.holds(b) && a != b ==> may_come_first(a, b)
            && lamport_timestamp_of(a) != lamport_timestamp_of(b)
}

/// An operation that can be applied knows of none that has not been seen.
proof fn lemma_knows_none(x: State, a: OperationModel, b: OperationModel)
    requires
        can_apply(x, a),
        changes_text(a),
        !observes(x.version, name_of(b)),
    ensures
        !observes(version_of(a), name_of(b)),
{
    let t = name_of(b);
    assert(seen_of(x.version, t.replica_id) >= seen_of(version_of(a), t.replica_id));
}

/// What is left after one of the operations has not been seen.
proof fn lemma_still_new(x: State, left: Left, op: OperationModel)
    requires
        leaves(x, left),
        left.holds(op),
        can_apply(x, op),
    ensures
        forall|f: OperationModel| #[trigger]
            left.holds(f) && f != op ==> has_time(f, left.size() - 1) && !observes(
                observing(x.version, name_of(op)),
                name_of(f),
            ),
{
    assert forall|f: OperationModel| #[trigger] left.holds(f) && f != op implies has_time(
        f,
        left.size() - 1,
    ) && !observes(observing(x.version, name_of(op)), name_of(f)) by {
        assert(has_time(f, left.size()));
        assert(may_come_first(op, f));
        lemma_knows_none(x, op, f);
    }
}

/// One of the edits is applied, and the others can still be.
proof fn lemma_edit_fits(x: State, left: Left, e: EditModel)
    requires
        leaves(x, left),
        left.edits.contains(e),
        can_apply(x, OperationModel::Edit(e)),
    ensures
        op_fits(x, OperationModel::Edit(e)),
        leaves(applied(x, OperationModel::Edit(e)), left.without(OperationModel::Edit(e))),
{
    let op = OperationModel::Edit(e);
    let edits = left.edits;
    let j = edits.index_of(e);
    let rest = edits.remove(j);
    let next = applied(x, op);
    assert(left.holds(op));
    left.lemma_without(op);
    lemma_still_new(x, left, op);
    assert forall|i: int| 0 <= i < j implies unaware(#[trigger] edits[i], edits[j]) && unaware(
        edits[j],
        edits[i],
    ) && lamport_of(edits[i].timestamp) != lamport_of(edits[j].timestamp) by {
        let f = OperationModel::Edit(edits[i]);
        assert(edits.contains(edits[i]));
        assert(left.holds(f));
        assert(edits[i] != edits[j]);
        lemma_knows_none(x, op, f);
    }
    lemma_front_fits(x.cells, x.log, edits, j);
    lemma_applied_edit(x, e);
    let d = edit_done(x.cells, x.log, e);
    lemma_edit_len(x.cells, x.log, e);
    lemma_edits_len(d, x.log, rest);
    lemma_edit_uniform(x.cells, x.log, e);
    assert(has_time(op, left.size()));
    assert(next.lamport_clock.value <= x.lamport_clock.value + 1 || next.lamport_clock.value
        <= e.timestamp.lamport + 1);
    assert forall|p: int, q: int| 0 <= p < q < rest.len() implies unaware(
        #[trigger] rest[p],
        #[trigger] rest[q],
    ) by {
        let p0 = if p < j {
            p
        } else {
            p + 1
        };
        let q0 = if q < j {
            q
        } else {
            q + 1
        };
        assert(unaware(edits[p0], edits[q0]));
    }
}

/// One of the undos is applied, and the edits can still be.
proof fn lemma_undo_fits(x: State, left: Left, op: OperationModel)
    requires
        leaves(x, left),
        op is Undo,
        left.holds(op),
        can_apply(x, op),
    ensures
        op_fits(x, op),
        leaves(applied(x, op), left.without(op)),
{
    let next = applied(x, op);
    left.lemma_without(op);
    lemma_still_new(x, left, op);
    assert(has_time(op, left.size()));
    lemma_applied(x, op);
    assert(same_shape(x.cells, next.cells)) by {
        assert(bare(next.cells).len() == bare(x.cells).len());
        assert forall|i: int| 0 <= i < x.cells.len() implies (#[trigger] x.cells[i]).timestamp
            == next.cells[i].timestamp && x.cells[i].head == next.cells[i].head && x.cells[i].byte
            == next.cells[i].byte by {
            assert(bare(next.cells)[i] == bare(x.cells)[i]);
        }
    }
    lemma_shape_all(x.cells, next.cells, x.log, next.log, left.edits);
    assert forall|i: int| 0 < i < next.cells.len() && !(
    #[trigger] next.cells[i]).head implies next.cells[i].timestamp == next.cells[i - 1].timestamp by {
        assert(x.cells[i].head == next.cells[i].head);
        assert(x.cells[i - 1].timestamp == next.cells[i - 1].timestamp);
    }
    assert(next.lamport_clock.value <= x.lamport_clock.value + 1 || next.lamport_clock.value
        <= lamport_timestamp_of(op).value + 1);
}

/// One of the operations is applied, and the others can still be.
proof fn lemma_one_fits(x: State, left: Left, op: OperationModel)
    requires
        leaves(x, left),
        left.holds(op),
        can_apply(x, op),
    ensures
        op_fits(x, op),
        leaves(applied(x, op), left.without(op)),
        forall|f: OperationModel| #[trigger]
            left.without(op).holds(f) <==> left.holds(f) && f != op,
{
    left.lemma_without(op);
    match op {
        OperationModel::Edit(e) => {
            lemma_edit_fits(x, left, e);
        },
        _ => {
            lemma_undo_fits(x, left, op);
        },
    }
}

/// A pass over some of the operations that are still to come.
proof fn lemma_pass_fits(x: State, ops: Seq<OperationModel>, n: int, left: Left) -> (rest: Left)
    requires
        leaves(x, left),
        0 <= n <= ops.len(),
        listed(ops, left),
    ensures
        ({
            let run = run_ops(x, ops, n);
            &&& !run.failed
            &&& leaves(run.state, rest)
            &&& forall|f: OperationModel| #[trigger]
                left.holds(f) && !ops.take(n).contains(f) ==> rest.holds(f)
            &&& forall|i: int|
                0 <= i < run.waiting.len() ==> rest.holds(#[trigger] run.waiting[i]) && ops.take(
                    n,
                ).contains(run.waiting[i])
        }),
    decreases n,
{
    if n == 0 {
        left
    } else {
        let before = run_ops(x, ops, n - 1);
        let op = ops[n - 1];
        let past = lemma_pass_fits(x, ops, n - 1, left);
        assert(left.holds(ops[n - 1]));
        assert(!ops.take(n - 1).contains(op)) by {
            if ops.take(n - 1).contains(op) {
                let k = ops.take(n - 1).index_of(op);
                assert(ops[k] == op);
                assert(ops[k] != ops[n - 1]);
            }
        }
        let run = run_ops(x, ops, n);
        let some = ops.take(n - 1);
        let all = ops.take(n);
        assert forall|o: OperationModel| #[trigger] some.contains(o) implies all.contains(o) by {
            let k = some.index_of(o);
            assert(all[k] == o);
        }
        assert(past.holds(op));
        assert(all[n - 1] == op);
        if can_apply(before.state, op) {
            lemma_one_fits(before.state, past, op);
            let rest = past.without(op);
            assert forall|f: OperationModel| #[trigger] left.holds(f) && !all.contains(
                f,
            ) implies rest.holds(f) by {
                assert(!some.contains(f));
                assert(past.holds(f));
            }
            assert forall|i: int| 0 <= i < run.waiting.len() implies rest.holds(
                #[trigger] run.waiting[i],
            ) && all.contains(run.waiting[i]) by {
                let w = before.waiting[i];
                assert(past.holds(before.waiting[i]));
                assert(some.contains(before.waiting[i]));
            }
            rest
        } else {
            assert forall|i: int| 0 <= i < run.waiting.len() implies past.holds(
                #[trigger] run.waiting[i],
            ) && all.contains(run.waiting[i]) by {
                if i < before.waiting.len() {
                    assert(run.waiting[i] == before.waiting[i]);
                }
            }
            assert forall|f: OperationModel| #[trigger] left.holds(f) && !all.contains(
                f,
            ) implies past.holds(f) by {
                assert(!some.contains(f));
            }
            past
        }
    }
}

/// The operations are some of those that are still to come, each once.
pub open spec fn listed(ops: Seq<OperationModel>, left: Left) -> bool {
    &&& forall|i: int| 0 <= i < ops.len() ==> left.holds(#[trigger] ops[i])
    &&& forall|i: int, j: int| 0 <= i < j < ops.len() ==> #[trigger] ops[i] != #[trigger] ops[j]
}

/// Different operations were made at different times.
proof fn lemma_listed_apart(
    x: State,
    left: Left,
    a: Seq<OperationModel>,
    b: Seq<OperationModel>,
)
    requires
        leaves(x, left),
        forall|i: int| 0 <= i < a.len() ==> left.holds(#[trigger] a[i]),
        forall|i: int| 0 <= i < b.len() ==> left.holds(#[trigger] b[i]),
    ensures
        told_apart(a, b),
{
    assert forall|i: int, j: int|
        0 <= i < a.len() && 0 <= j < b.len() && lamport_timestamp_of(#[trigger] a[i])
            == lamport_timestamp_of(#[trigger] b[j]) implies a[i] == b[j] by {
        assert(left.holds(a[i]) && left.holds(b[j]));
    }
}

/// One batch, with others waiting.
proof fn lemma_one_accepted(x: State, ops: Seq<OperationModel>, left: Left) -> (rest: Left)
    requires
        leaves(x, left),
        listed(ops, left),
        in_order(x.deferred_ops),
        forall|i: int|
            0 <= i < x.deferred_ops.len() ==> left.holds(#[trigger] x.deferred_ops[i])
                && !ops.contains(x.deferred_ops[i]),
    ensures
        !ops_fail(x, ops),
        ({
            let end = ops_applied(x, ops);
            &&& leaves(end, rest)
            &&& in_order(end.deferred_ops)
            &&& forall|i: int|
                0 <= i < end.deferred_ops.len() ==> rest.holds(#[trigger] end.deferred_ops[i]) && (
                ops.contains(end.deferred_ops[i]) || x.deferred_ops.contains(end.deferred_ops[i]))
            &&& forall|f: OperationModel| #[trigger]
                left.holds(f) && !ops.contains(f) && !x.deferred_ops.contains(f) ==> rest.holds(f)
        }),
{
    let start = State { pending_autoindent: false, ..x };
    let run = first_run(x, ops);
    let n = ops.len() as int;
    assert(leaves(start, left));
    let middle = lemma_pass_fits(start, ops, n, left);
    assert(ops.take(n) =~= ops);
    lemma_run_keeps_queue(start, ops, n);
    let earlier = x.deferred_ops;
    let waiting = run.waiting;
    assert forall|i: int| 0 <= i < earlier.len() implies middle.holds(#[trigger] earlier[i]) by {
        assert(left.holds(earlier[i]));
    }
    assert forall|i: int| 0 <= i < waiting.len() implies middle.holds(#[trigger] waiting[i])
        && ops.contains(waiting[i]) by {}
    lemma_listed_apart(run.state, middle, earlier, waiting);
    lemma_listed_apart(run.state, middle, waiting, waiting);
    lemma_enqueued(earlier, waiting);
    law_queue_stays_in_order(earlier, waiting);
    let queue = enqueued(earlier, waiting);
    let held = run_queued(run);
    assert(held.deferred_ops == queue);
    assert forall|i: int| 0 <= i < queue.len() implies middle.holds(#[trigger] queue[i]) && (
    ops.contains(queue[i]) || earlier.contains(queue[i])) by {
        assert(queue.contains(queue[i]));
        if earlier.contains(queue[i]) {
            let k = earlier.index_of(queue[i]);
            assert(middle.holds(earlier[k]));
        } else {
            let k = waiting.index_of(queue[i]);
            assert(middle.holds(waiting[k]));
        }
    }
    // What waits is tried again.
    let open = reopened(held);
    let m = queue.len() as int;
    assert(leaves(open, middle));
    let rest = lemma_pass_fits(open, queue, m, middle);
    assert(queue.take(m) =~= queue);
    lemma_run_keeps_queue(open, queue, m);
    let again = flush_run(held);
    let none = Seq::<OperationModel>::empty();
    let last = again.waiting;
    lemma_listed_apart(again.state, rest, last, last);
    assert(told_apart(none, last));
    lemma_enqueued(none, last);
    law_queue_stays_in_order(none, last);
    let end = ops_applied(x, ops);
    assert(end.deferred_ops == enqueued(none, last));
    assert(leaves(end, rest));
    assert forall|i: int| 0 <= i < end.deferred_ops.len() implies rest.holds(
        #[trigger] end.deferred_ops[i],
    ) && (ops.contains(end.deferred_ops[i]) || earlier.contains(end.deferred_ops[i])) by {
        let q = end.deferred_ops[i];
        assert(end.deferred_ops.contains(q));
        assert(!none.contains(q));
        let k = last.index_of(q);
        assert(rest.holds(last[k]));
        let j = queue.index_of(q);
        assert(ops.contains(queue[j]) || earlier.contains(queue[j]));
    }
    assert forall|f: OperationModel| #[trigger] left.holds(f) && !ops.contains(f)
        && !earlier.contains(f) implies rest.holds(f) by {
        assert(middle.holds(f));
        if queue.contains(f) {
            let j = queue.index_of(f);
            assert(ops.contains(queue[j]) || earlier.contains(queue[j]));
        }
    }
    rest
}

/// Edits that can be applied in some order are accepted in whatever batches and
/// in whatever order they come, and with whatever undos in between.
pub proof fn law_batches_are_accepted(
    s: State,
    batches: Seq<Seq<OperationModel>>,
    left: Left,
)
    requires
        s.deferred_ops.len() == 0,
        leaves(s, left),
        listed(all_ops(batches), left),
    ensures
        batches_fit(s, batches),
{
    let _ = lemma_accepted_upto(s, batches, left);
}

proof fn lemma_accepted_upto(
    s: State,
    batches: Seq<Seq<OperationModel>>,
    left: Left,
) -> (rest: Left)
    requires
        s.deferred_ops.len() == 0,
        leaves(s, left),
        listed(all_ops(batches), left),
    ensures
        batches_fit(s, batches),
        ({
            let end = after_batches(s, batches);
            &&& leaves(end, rest)
            &&& in_order(end.deferred_ops)
            &&& forall|i: int|
                0 <= i < end.deferred_ops.len() ==> rest.holds(#[trigger] end.deferred_ops[i])
                    && all_ops(batches).contains(end.deferred_ops[i])
            &&& forall|f: OperationModel| #[trigger]
                left.holds(f) && !all_ops(batches).contains(f) ==> rest.holds(f)
        }),
    decreases batches.len(),
{
    if batches.len() == 0 {
        left
    } else {
        let past = batches.drop_last();
        let batch = batches.last();
        let given = all_ops(past);
        let all = all_ops(batches);
        let g = given.len() as int;
        assert forall|i: int| 0 <= i < given.len() implies #[trigger] given[i] == all[i] by {}
        assert forall|i: int| 0 <= i < batch.len() implies #[trigger] batch[i] == all[g + i] by {}
        assert(listed(given, left)) by {
            assert forall|i: int, j: int| 0 <= i < j < given.len() implies #[trigger] given[i]
                != #[trigger] given[j] by {
                assert(all[i] != all[j]);
            }
        }
        let middle = lemma_accepted_upto(s, past, left);
        let x = after_batches(s, past);
        assert forall|i: int| 0 <= i < batch.len() implies !given.contains(#[trigger] batch[i]) by {
            if given.contains(batch[i]) {
                let k = given.index_of(batch[i]);
                assert(all[k] != all[g + i]);
            }
        }
        assert forall|i: int| 0 <= i < batch.len() implies middle.holds(#[trigger] batch[i]) by {
            assert(left.holds(all[g + i]));
            assert(!given.contains(batch[i]));
        }
        assert forall|i: int, j: int| 0 <= i < j < batch.len() implies #[trigger] batch[i]
            != #[trigger] batch[j] by {
            assert(all[g + i] != all[g + j]);
        }
        assert forall|i: int| 0 <= i < x.deferred_ops.len() implies !batch.contains(
            #[trigger] x.deferred_ops[i],
        ) by {
            if batch.contains(x.deferred_ops[i]) {
                let k = batch.index_of(x.deferred_ops[i]);
                assert(!given.contains(batch[k]));
            }
        }
        let rest = lemma_one_accepted(x, batch, middle);
        let end = after_batches(s, batches);
        assert forall|op: OperationModel| given.contains(op) || #[trigger] batch.contains(
            op,
        ) implies all.contains(op) by {
            lemma_plus(given, batch, op);
        }
        assert forall|i: int| 0 <= i < end.deferred_ops.len() implies rest.holds(
            #[trigger] end.deferred_ops[i],
        ) && all.contains(end.deferred_ops[i]) by {
            let q = end.deferred_ops[i];
            lemma_plus(given, batch, q);
            if x.deferred_ops.contains(q) {
                let k = x.deferred_ops.index_of(q);
                assert(given.contains(x.deferred_ops[k]));
            }
        }
        assert forall|op: OperationModel| #[trigger] left.holds(op) && !all.contains(
            op,
        ) implies rest.holds(op) by {
            lemma_plus(given, batch, op);
            assert(middle.holds(op));
            if x.deferred_ops.contains(op) {
                let k = x.deferred_ops.index_of(op);
                assert(given.contains(x.deferred_ops[k]));
            }
        }
        rest
    }
}

/// Two replicas that started from the same state, and have been handed the same
/// edits and undos, in whatever batches and in whatever order: if the edits can be
/// applied in some order, both accept them all, and agree on the text, as
/// `law_batches_converge` says, once all that the operations build on is there.
pub proof fn law_accepted_batches_converge(
    s: State,
    first: Seq<Seq<OperationModel>>,
    second: Seq<Seq<OperationModel>>,
    left: Left,
)
    requires
        at_rest(s),
        leaves(s, left),
        listed(all_ops(first), left),
        listed(all_ops(second), left),
        forall|op: OperationModel| #[trigger] left.holds(op) ==> own(op),
        timed(s, all_ops(first)),
        complete(s, all_ops(first)),
        complete(s, all_ops(second)),
        forall|op: OperationModel| #[trigger]
            all_ops(first).contains(op) <==> all_ops(second).contains(op),
    ensures
        ({
            let a = after_batches(s, first);
            let b = after_batches(s, second);
            &&& batches_fit(s, first)
            &&& batches_fit(s, second)
            &&& a.deferred_ops.len() == 0
            &&& b.deferred_ops.len() == 0
            &&& bare(a.cells) == bare(b.cells)
            &&& logs_agree(a.log, b.log)
            &&& same_version(a.version, b.version)
            &&& settled(s.cells, s.log, s.version) && undos_made(s, all_ops(first)) ==> a.text()
                == b.text()
        }),
{
    law_batches_are_accepted(s, first, left);
    law_batches_are_accepted(s, second, left);
    lemma_listed_order(s, all_ops(first), left);
    lemma_listed_order(s, all_ops(second), left);
    law_batches_converge(s, first, second);
}

/// An edit that a buffer accepts is accepted after another one too that was made
/// without its being known, if there is room for both.
pub proof fn law_accepted_after_another(s: State, a: EditModel, b: EditModel)
    requires
        fits_in(s.cells, a),
        fits_in(s.cells, b),
        edit_fits(s, a),
        edit_fits(s, b),
        unaware(a, b),
        unaware(b, a),
        lamport_of(a.timestamp) != lamport_of(b.timestamp),
        s.cells.len() + a.ranges.len() * bytes_of(a.new_text).len() + b.ranges.len() * bytes_of(
            b.new_text,
        ).len() < usize::MAX,
        s.lamport_clock.value + 1 < u32::MAX,
        a.timestamp.lamport + 1 < u32::MAX,
    ensures
        edit_fits(remote_edit_applied(s, a), b),
        remote_edit_applied(remote_edit_applied(s, a), b).cells == remote_edit_applied(
            remote_edit_applied(s, b),
            a,
        ).cells,
{
    let x = remote_edit_applied(s, a);
    law_buffers_commute(s, a, b);
    if a.ranges.len() > 0 && b.ranges.len() > 0 {
        lemma_plain_plan(s.cells, s.log, a.version, lamport_of(a.timestamp), a.ranges);
        assert(x.cells == edit_done(s.cells, s.log, a));
        lemma_edit_len(s.cells, s.log, a);
        assert(cuts_between(s.cells, b)) by {
            assert forall|k: int| 0 <= k < b.ranges.len() implies cuttable(
                s.cells,
                seek(s.cells, b.version, (#[trigger] b.ranges[k]).0),
            ) && cuttable(s.cells, seek(s.cells, b.version, b.ranges[k].1)) by {}
        }
        lemma_cuts_after(s.cells, s.log, a, b);
        assert(fits_in(x.cells, b));
        assert forall|k: int| 0 <= k < b.ranges.len() implies (#[trigger] b.ranges[k]).1
            <= seen_rank(x.cells, b.version, x.cells.len() as int) && passable(
            x.cells,
            x.log,
            b.version,
            lamport_of(b.timestamp),
            b.ranges,
            k,
        ) && cuttable(x.cells, seek(x.cells, b.version, b.ranges[k].0)) && cuttable(
            x.cells,
            seek(x.cells, b.version, b.ranges[k].1),
        ) by {}
    }
}

/// Operations that are still to come are new, and in order.
proof fn lemma_listed_order(s: State, ops: Seq<OperationModel>, left: Left)
    requires
        leaves(s, left),
        listed(ops, left),
        forall|op: OperationModel| #[trigger] left.holds(op) ==> own(op),
    ensures
        in_own_order(ops),
        all_new(s, ops),
{
    assert forall|i: int| 0 <= i < ops.len() implies own(#[trigger] ops[i]) && !observes(
        s.version,
        name_of(ops[i]),
    ) by {
        assert(left.holds(ops[i]));
    }
    assert forall|i: int| 0 <= i < ops.len() implies !observes(
        s.version,
        #[trigger] name_of(ops[i]),
    ) by {
        assert(own(ops[i]));
    }
    assert forall|i: int, j: int| 0 <= i < j < ops.len() implies may_come_first(
        #[trigger] ops[i],
        #[trigger] ops[j],
    ) by {
        assert(left.holds(ops[i]) && left.holds(ops[j]));
        assert(ops[i] != ops[j]);
    }
}

proof fn lemma_run_keeps_queue(s: State, ops: Seq<OperationModel>, n: int)
    ensures
        run_ops(s, ops, n).state.deferred_ops == s.deferred_ops,
    decreases n,
{
    if n > 0 {
        lemma_run_keeps_queue(s, ops, n - 1);
    }
}

} // verus!
