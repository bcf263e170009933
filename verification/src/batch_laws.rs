//! Operations of other replicas, handed over in batches: whatever the batches
//! are, and whatever has to wait, the buffer ends up as if each operation had
//! come when it could be applied.

use vstd::prelude::*;

use crate::clock::{
    Lamport, Local, ReplicaId, Version, after, includes, observes, same_version, seen_of,
};
use crate::converge::{
    edit_done, gaps_of, high, lemma_laid_at, lemma_places, lemma_stands, low, marked,
};
use crate::delivery_laws::law_queue_stays_in_order;
use crate::document::{Cell, seen_rank};
use crate::fragment::{
    InsertionTimestamp, having_seen, lamport_of, lemma_having_seen_only, local_of,
};
use crate::operation::{EditModel, OperationModel, lamport_timestamp_of};
use crate::operation_queue::{enqueued, in_order, queued, queued_all, slot_from, sorted_ops};
use crate::replica_laws::{
    bare, changes_text, edits_in, law_replicas_converge_with_undos, lemma_applied, lemma_edits_in,
    lemma_took, logs_agree, name_of, named, takes, took,
};
use crate::replicas::{at_different_times, fits_in, lemma_no_ranges};
use crate::state::{
    State, applied, can_apply, edit_fits, first_run, flush_run, flushed, op_fits, ops_applied,
    ops_fail, run_ops, run_queued,
};
use crate::travel_laws::{
    law_replicas_agree, lemma_took_next, made_with, undos_well_made, well_made,
};
use crate::undo::Undo;
use crate::undo_laws::settled;
use crate::undo_map::UndoLog;
use crate::weave::{clear, lemma_seek, lemma_skip_stops, seek, skip_newer};

verus! {

/// A buffer, but for what waits, for what is asked of the program around it, and
/// for the syntax tree, which is brought up to date on the way.
pub open spec fn heart(s: State) -> State {
    State {
        deferred_replicas: Set::empty(),
        deferred_ops: Seq::empty(),
        parsing: false,
        pending_autoindent: false,
        tree: None,
        ..s
    }
}

/// The operation is an edit or an undo, and names one replica as its own.
pub open spec fn own(op: OperationModel) -> bool {
    changes_text(op) && lamport_timestamp_of(op).replica_id == name_of(op).replica_id
}

/// If both operations come from one replica, that one made `a` first.
pub open spec fn made_first(a: OperationModel, b: OperationModel) -> bool {
    name_of(a).replica_id == name_of(b).replica_id ==> name_of(a).value < name_of(b).value
        && after(lamport_timestamp_of(b), lamport_timestamp_of(a))
}

/// The version that an operation was made at.
pub open spec fn version_of(op: OperationModel) -> Version {
    match op {
        OperationModel::Edit(edit) => edit.version,
        OperationModel::Undo { undo, lamport } => undo.version,
        _ => Map::empty(),
    }
}

/// `a` may come before `b`: if both come from one replica, that one made `a`
/// first, or `a` knows of `b` and will wait for it.
pub open spec fn may_come_first(a: OperationModel, b: OperationModel) -> bool {
    made_first(a, b) || (made_first(b, a) && observes(version_of(a), name_of(b)))
}

/// The operations of each replica come in the order in which it made them, but
/// for those that know of the ones they came before.
pub open spec fn in_own_order(ops: Seq<OperationModel>) -> bool {
    &&& forall|i: int| 0 <= i < ops.len() ==> own(#[trigger] ops[i])
    &&& forall|i: int, j: int|
        0 <= i < j < ops.len() ==> may_come_first(#[trigger] ops[i], #[trigger] ops[j])
}

/// None of the operations has been seen.
pub open spec fn all_new(s: State, ops: Seq<OperationModel>) -> bool {
    forall|i: int| 0 <= i < ops.len() ==> !observes(s.version, #[trigger] name_of(ops[i]))
}

/// An edit was made no earlier than the text that its version had seen.
pub open spec fn later_than_seen(cells: Seq<Cell>, e: EditModel) -> bool {
    forall|i: int|
        0 <= i < cells.len() && observes(
            e.version,
            local_of((#[trigger] cells[i]).timestamp),
        ) ==> !after(lamport_of(cells[i].timestamp), lamport_of(e.timestamp))
}

/// If the first edit knows of the second, it was made no earlier.
pub open spec fn later_than(a: EditModel, b: EditModel) -> bool {
    observes(a.version, local_of(b.timestamp)) ==> !after(
        lamport_of(b.timestamp),
        lamport_of(a.timestamp),
    )
}

/// The edits were made no earlier than what they know of, as they are where
/// clocks run on.
pub open spec fn timed(s: State, ops: Seq<OperationModel>) -> bool {
    &&& forall|e: EditModel| #[trigger]
        ops.contains(OperationModel::Edit(e)) ==> later_than_seen(s.cells, e)
    &&& forall|e: EditModel, f: EditModel| #[trigger]
        ops.contains(OperationModel::Edit(e)) && #[trigger] ops.contains(OperationModel::Edit(f))
            ==> later_than(e, f)
}

/// The text was there, or one of the operations has inserted it.
pub open spec fn comes_from(s: State, ops: Seq<OperationModel>, t: InsertionTimestamp) -> bool {
    ||| exists|j: int| 0 <= j < s.cells.len() && (#[trigger] s.cells[j]).timestamp == t
    ||| exists|e: EditModel| #[trigger] ops.contains(OperationModel::Edit(e)) && e.timestamp == t
}

/// All text was there, or one of the operations has inserted it.
proof fn lemma_comes_from(s: State, done: Seq<OperationModel>, i: int)
    requires
        takes(s, done),
        0 <= i < took(s, done).cells.len(),
    ensures
        comes_from(s, done, took(s, done).cells[i].timestamp),
    decreases done.len(),
{
    let t = took(s, done).cells[i].timestamp;
    if done.len() > 0 {
        let next = applied(s, done[0]);
        let rest = done.skip(1);
        lemma_comes_from(next, rest, i);
        if exists|e: EditModel| #[trigger]
            rest.contains(OperationModel::Edit(e)) && e.timestamp == t {
            let e = choose|e: EditModel| #[trigger]
                rest.contains(OperationModel::Edit(e)) && e.timestamp == t;
            let k = rest.index_of(OperationModel::Edit(e));
            assert(done[k + 1] == OperationModel::Edit(e));
            assert(done.contains(OperationModel::Edit(e)));
        } else {
            let j = choose|j: int|
                0 <= j < next.cells.len() && (#[trigger] next.cells[j]).timestamp == t;
            lemma_applied(s, done[0]);
            match done[0] {
                OperationModel::Edit(e) => {
                    assert(done.contains(OperationModel::Edit(e)));
                    lemma_edit_stamps(s.cells, s.log, e, j);
                },
                _ => {
                    assert(bare(next.cells)[j].timestamp == t);
                    assert(bare(next.cells).len() == s.cells.len());
                    assert(bare(s.cells)[j].timestamp == s.cells[j].timestamp);
                },
            }
        }
    } else {
        assert(s.cells[i].timestamp == t);
    }
}

/// An edit that was made no earlier than what it knows of, and fits, names places
/// of the text.
pub proof fn lemma_timed(
    s: State,
    done: Seq<OperationModel>,
    all: Seq<OperationModel>,
    e: EditModel,
)
    requires
        takes(s, done),
        among(done, all),
        timed(s, all),
        all.contains(OperationModel::Edit(e)),
        edit_fits(took(s, done), e),
    ensures
        fits_in(took(s, done).cells, e),
{
    let x = took(s, done);
    let v = e.version;
    let lamport = lamport_of(e.timestamp);
    assert forall|i: int| 0 <= i < x.cells.len() && observes(
        v,
        local_of((#[trigger] x.cells[i]).timestamp),
    ) implies !after(lamport_of(x.cells[i].timestamp), lamport) by {
        let t = x.cells[i].timestamp;
        lemma_comes_from(s, done, i);
        if exists|j: int| 0 <= j < s.cells.len() && (#[trigger] s.cells[j]).timestamp == t {
            assert(later_than_seen(s.cells, e));
        } else {
            let f = choose|f: EditModel| #[trigger]
                done.contains(OperationModel::Edit(f)) && f.timestamp == t;
            assert(all.contains(OperationModel::Edit(f)));
            assert(later_than(e, f));
        }
    }
    if e.ranges.len() > 0 {
        assert forall|k: int| 0 <= k < e.ranges.len() implies (#[trigger] e.ranges[k]).1
            <= seen_rank(x.cells, v, x.cells.len() as int) && clear(
            x.cells,
            v,
            lamport,
            e.ranges[k].0,
        ) by {
            assert(0 <= e.ranges[k].0 <= e.ranges[k].1);
            let p = seek(x.cells, v, e.ranges[k].0);
            let q = skip_newer(x.cells, lamport, p);
            lemma_seek(x.cells, v, e.ranges[k].0);
            lemma_skip_stops(x.cells, lamport, p);
            lemma_unseen_between(x.cells, v, p, q);
        }
    }
}

/// What one of the operations knew of has been seen.
pub proof fn lemma_knew(s: State, ops: Seq<OperationModel>, k: int, t: Local)
    requires
        takes(s, ops),
        0 <= k < ops.len(),
        observes(version_of(ops[k]), t),
    ensures
        observes(took(s, ops).version, t),
    decreases k,
{
    let next = applied(s, ops[0]);
    let rest = ops.skip(1);
    lemma_took(s, ops);
    if k == 0 {
        assert(changes_text(ops[0]));
        assert(seen_of(s.version, t.replica_id) >= seen_of(version_of(ops[0]), t.replica_id));
        assert(observes(s.version, t));
    } else {
        assert(rest[k - 1] == ops[k]);
        lemma_knew(next, rest, k - 1, t);
    }
}

/// Text that was there stays there, shown or not.
pub proof fn lemma_stamps_stay(s: State, done: Seq<OperationModel>, j: int) -> (i: int)
    requires
        takes(s, done),
        0 <= j < s.cells.len(),
    ensures
        0 <= i < took(s, done).cells.len(),
        took(s, done).cells[i].timestamp == s.cells[j].timestamp,
    decreases done.len(),
{
    if done.len() == 0 {
        j
    } else {
        let next = applied(s, done[0]);
        lemma_applied(s, done[0]);
        let i = match done[0] {
            OperationModel::Edit(e) => {
                if e.ranges.len() == 0 {
                    lemma_no_ranges(s.cells, s.log, e);
                    j
                } else {
                    lemma_places(s.cells, s.log, e);
                    let m = marked(s.cells, s.log, e);
                    let g = gaps_of(s.cells, s.log, e);
                    lemma_laid_at(m, g, j);
                    assert(m[j].timestamp == s.cells[j].timestamp);
                    high(m, g, j)
                }
            },
            _ => {
                assert(bare(next.cells).len() == bare(s.cells).len());
                assert(bare(next.cells)[j].timestamp == bare(s.cells)[j].timestamp);
                j
            },
        };
        lemma_stamps_stay(next, done.skip(1), i)
    }
}

/// Nothing between two places has been seen, so their ranks are the same.
proof fn lemma_unseen_between(cells: Seq<Cell>, v: Version, p: int, q: int)
    requires
        0 <= p <= q <= cells.len(),
        forall|i: int| p <= i < q ==> !observes(v, local_of((#[trigger] cells[i]).timestamp)),
    ensures
        seen_rank(cells, v, p) == seen_rank(cells, v, q),
    decreases q - p,
{
    if p < q {
        lemma_unseen_between(cells, v, p, q - 1);
        assert(!observes(v, local_of(cells[q - 1].timestamp)));
    }
}

/// An edit adds no text but its own.
proof fn lemma_edit_stamps(cells: Seq<Cell>, log: UndoLog, e: EditModel, x: int)
    requires
        fits_in(cells, e),
        0 <= x < edit_done(cells, log, e).len(),
    ensures
        edit_done(cells, log, e)[x].timestamp == e.timestamp || exists|j: int|
            0 <= j < cells.len() && (#[trigger] cells[j]).timestamp == edit_done(
                cells,
                log,
                e,
            )[x].timestamp,
{
    if e.ranges.len() == 0 {
        lemma_no_ranges(cells, log, e);
        assert(cells[x].timestamp == edit_done(cells, log, e)[x].timestamp);
    } else {
        lemma_places(cells, log, e);
        let m = marked(cells, log, e);
        let g = gaps_of(cells, log, e);
        lemma_laid_at(m, g, m.len() as int);
        let d = edit_done(cells, log, e);
        let i = lemma_stands(m, g, x, m.len() as int);
        lemma_laid_at(m, g, i);
        let y = low(m, g, i);
        let h = high(m, g, i);
        if x < h {
            assert(d.subrange(y, h)[x - y] == g(i)[x - y]);
        } else {
            assert(d[x] == m[i]);
            assert(cells[i].timestamp == m[i].timestamp);
        }
    }
}

proof fn lemma_heart(s: State, op: OperationModel)
    requires
        changes_text(op),
    ensures
        heart(applied(s, op)) == applied(heart(s), op),
        op_fits(heart(s), op) == op_fits(s, op),
        can_apply(s, op) ==> can_apply(heart(s), op),
        applied(s, op).deferred_ops == s.deferred_ops,
        applied(s, op).deferred_replicas == s.deferred_replicas,
{
    assert(heart(applied(s, op)) =~= applied(heart(s), op));
}

/// One operation more.
pub proof fn lemma_took_one(s: State, done: Seq<OperationModel>, op: OperationModel)
    requires
        takes(s, done),
        changes_text(op),
        can_apply(took(s, done), op),
        op_fits(took(s, done), op),
        op matches OperationModel::Edit(e) ==> fits_in(took(s, done).cells, e),
        !observes(took(s, done).version, name_of(op)),
    ensures
        takes(s, done.push(op)),
        took(s, done.push(op)) == applied(took(s, done), op),
    decreases done.len(),
{
    let all = done.push(op);
    assert(all.len() > 0);
    if done.len() == 0 {
        assert(all[0] == op);
        assert(all.skip(1) =~= Seq::<OperationModel>::empty());
        assert(takes(applied(s, op), all.skip(1)));
        assert(took(s, all) == took(applied(s, op), all.skip(1)));
    } else {
        assert(all[0] == done[0]);
        assert(all.skip(1) =~= done.skip(1).push(op));
        lemma_took_one(applied(s, done[0]), done.skip(1), op);
    }
}

/// The operations that a pass applies.
pub open spec fn done_in(s: State, ops: Seq<OperationModel>, n: int) -> Seq<OperationModel>
    decreases n,
{
    if n <= 0 {
        Seq::empty()
    } else if can_apply(run_ops(s, ops, n - 1).state, ops[n - 1]) {
        done_in(s, ops, n - 1).push(ops[n - 1])
    } else {
        done_in(s, ops, n - 1)
    }
}

/// Every operation of the one list was made before those of the other, where
/// they come from one replica.
pub open spec fn all_made_first(a: Seq<OperationModel>, b: Seq<OperationModel>) -> bool {
    forall|i: int, j: int|
        0 <= i < a.len() && 0 <= j < b.len() ==> made_first(#[trigger] a[i], #[trigger] b[j])
}

/// The same where an operation that came first may know of the others.
pub open spec fn all_may_come_first(a: Seq<OperationModel>, b: Seq<OperationModel>) -> bool {
    forall|i: int, j: int|
        0 <= i < a.len() && 0 <= j < b.len() ==> may_come_first(#[trigger] a[i], #[trigger] b[j])
}

/// An operation that has been applied was made before one that has not, where
/// they come from one replica.
proof fn lemma_made_first(s: State, done: Seq<OperationModel>, op: OperationModel, k: int)
    requires
        takes(s, done),
        0 <= k < done.len(),
        own(op),
        !observes(s.version, name_of(op)),
        forall|i: int| 0 <= i < done.len() ==> may_come_first(#[trigger] done[i], op),
    ensures
        made_first(done[k], op),
    decreases k,
{
    if !made_first(done[k], op) {
        // It knows of `op`, and so did the buffer when it applied it.
        assert(may_come_first(done[k], op));
        let t = name_of(op);
        let past = done.take(k);
        lemma_took_next(s, done, k);
        assert(done.skip(k)[0] == done[k]);
        lemma_took(s, past);
        assert(changes_text(done[k]));
        assert(seen_of(took(s, past).version, t.replica_id) >= seen_of(
            version_of(done[k]),
            t.replica_id,
        ));
        assert(named(past, t));
        let i = choose|i: int|
            0 <= i < past.len() && (#[trigger] name_of(past[i])).replica_id == t.replica_id
                && name_of(past[i]).value >= t.value;
        assert(past[i] == done[i]);
        lemma_made_first(s, done, op, i);
    }
}

/// Where a buffer stands that has applied `done` and has others waiting.
pub open spec fn stands(s: State, x: State, done: Seq<OperationModel>) -> bool {
    &&& takes(heart(s), done)
    &&& heart(x) == took(heart(s), done)
    &&& forall|i: int|
        0 <= i < x.deferred_ops.len() ==> x.deferred_replicas.contains(
            lamport_timestamp_of(#[trigger] x.deferred_ops[i]).replica_id,
        )
    &&& all_made_first(done, x.deferred_ops)
    &&& forall|i: int| 0 <= i < x.deferred_ops.len() ==> own(#[trigger] x.deferred_ops[i])
    &&& forall|i: int| 0 <= i < done.len() ==> own(#[trigger] done[i])
}

/// What a pass needs: the operations are new, in order, and among others that
/// were made no earlier than what they know of.
pub open spec fn goes_through(
    s: State,
    x: State,
    done: Seq<OperationModel>,
    ops: Seq<OperationModel>,
    all: Seq<OperationModel>,
) -> bool {
    &&& stands(s, x, done)
    &&& timed(s, all)
    &&& among(done, all)
    &&& among(ops, all)
    &&& in_own_order(ops)
    &&& all_new(s, ops)
    &&& all_may_come_first(done, ops)
}

/// Where a pass has got.
pub open spec fn went(
    s: State,
    x: State,
    done: Seq<OperationModel>,
    ops: Seq<OperationModel>,
    n: int,
) -> bool {
    let run = run_ops(x, ops, n);
    let now = done + done_in(x, ops, n);
    &&& stands(s, run.state, now)
    &&& run.state.deferred_ops == x.deferred_ops
    &&& forall|i: int|
        0 <= i < run.waiting.len() ==> run.state.deferred_replicas.contains(
            lamport_timestamp_of(#[trigger] run.waiting[i]).replica_id,
        )
    &&& forall|i: int| 0 <= i < run.waiting.len() ==> own(#[trigger] run.waiting[i])
    &&& all_made_first(now, run.waiting)
    &&& all_may_come_first(now, ops.skip(n))
    &&& run.waiting.len() == 0 ==> run.state.deferred_replicas == x.deferred_replicas
}

/// A pass applies each operation or leaves it waiting.
proof fn lemma_tried(x: State, ops: Seq<OperationModel>, n: int, o: OperationModel)
    requires
        0 <= n <= ops.len(),
        !run_ops(x, ops, n).failed,
    ensures
        done_in(x, ops, n).contains(o) || run_ops(x, ops, n).waiting.contains(o) <==> ops.take(
            n,
        ).contains(o),
    decreases n,
{
    if n > 0 {
        lemma_tried(x, ops, n - 1, o);
        let op = ops[n - 1];
        let a = done_in(x, ops, n - 1);
        let b = run_ops(x, ops, n - 1).waiting;
        assert(ops.take(n) =~= ops.take(n - 1).push(op));
        lemma_pushed(ops.take(n - 1), op, o);
        lemma_pushed(a, op, o);
        lemma_pushed(b, op, o);
    }
}

proof fn lemma_pushed(ops: Seq<OperationModel>, op: OperationModel, o: OperationModel)
    ensures
        ops.push(op).contains(o) <==> ops.contains(o) || o == op,
{
    let all = ops.push(op);
    if all.contains(o) {
        let k = all.index_of(o);
        if k < ops.len() {
            assert(ops[k] == o);
        }
    }
    if ops.contains(o) {
        let k = ops.index_of(o);
        assert(all[k] == o);
    }
    assert(all[ops.len() as int] == op);
}

/// A pass applies one more operation.
proof fn lemma_pass_applies(
    s: State,
    x: State,
    done: Seq<OperationModel>,
    ops: Seq<OperationModel>,
    n: int,
    all: Seq<OperationModel>,
)
    requires
        goes_through(s, x, done, ops, all),
        0 < n <= ops.len(),
        !run_ops(x, ops, n).failed,
        went(s, x, done, ops, n - 1),
        all_made_first(done + done_in(x, ops, n - 1), seq![ops[n - 1]]),
        can_apply(run_ops(x, ops, n - 1).state, ops[n - 1]),
    ensures
        went(s, x, done, ops, n),
{
    let run = run_ops(x, ops, n);
    let now = done + done_in(x, ops, n);
    let before = run_ops(x, ops, n - 1);
    let tried = done_in(x, ops, n - 1);
    let past = done + tried;
    let op = ops[n - 1];
    let left = ops.skip(n - 1);
    assert(left[0] == op);
    assert(own(ops[n - 1]));
    assert(!observes(s.version, name_of(ops[n - 1])));
    assert forall|i: int| 0 <= i < past.len() implies made_first(#[trigger] past[i], op) by {
        assert(made_first(past[i], seq![op][0]));
    }
    assert forall|i: int| 0 <= i < ops.skip(n).len() implies #[trigger] ops.skip(n)[i] == left[i
        + 1] && may_come_first(op, ops.skip(n)[i]) by {
        assert(may_come_first(ops[n - 1], ops[n + i]));
    }
    assert(now =~= past.push(op));
    lemma_heart(before.state, op);
    lemma_took(heart(s), past);
    if observes(before.state.version, name_of(op)) {
        assert(named(past, name_of(op)));
        let k = choose|k: int|
            0 <= k < past.len() && (#[trigger] name_of(past[k])).replica_id == name_of(
                op,
            ).replica_id && name_of(past[k]).value >= name_of(op).value;
        assert(made_first(past[k], op));
    }
    if op is Edit {
        assert(among(past, all)) by {
            assert forall|o: OperationModel| #[trigger] past.contains(o) implies all.contains(
                o,
            ) by {
                lemma_plus(done, tried, o);
                lemma_tried(x, ops, n - 1, o);
                if tried.contains(o) {
                    let k = ops.take(n - 1).index_of(o);
                    assert(ops[k] == o);
                    assert(ops.contains(o));
                }
            }
        }
        assert(ops.contains(op));
        assert(all.contains(op));
        assert(timed(heart(s), all));
        lemma_timed(heart(s), past, all, op->Edit_0);
    }
    lemma_took_one(heart(s), past, op);
    let waiting = before.waiting;
    assert forall|i: int, j: int|
        0 <= i < now.len() && 0 <= j < x.deferred_ops.len() implies made_first(
        #[trigger] now[i],
        #[trigger] x.deferred_ops[j],
    ) by {
        if i < past.len() {
            assert(now[i] == past[i]);
        } else {
            assert(own(x.deferred_ops[j]));
            assert(before.state.deferred_replicas.contains(
                lamport_timestamp_of(x.deferred_ops[j]).replica_id,
            ));
        }
    }
    assert forall|i: int, j: int|
        0 <= i < now.len() && 0 <= j < waiting.len() implies made_first(
        #[trigger] now[i],
        #[trigger] waiting[j],
    ) by {
        if i < past.len() {
            assert(now[i] == past[i]);
        } else {
            assert(own(waiting[j]));
            assert(before.state.deferred_replicas.contains(
                lamport_timestamp_of(waiting[j]).replica_id,
            ));
        }
    }
    assert forall|i: int, j: int|
        0 <= i < now.len() && 0 <= j < ops.skip(n).len() implies may_come_first(
        #[trigger] now[i],
        #[trigger] ops.skip(n)[j],
    ) by {
        if i < past.len() {
            assert(now[i] == past[i]);
            assert(may_come_first(past[i], left[j + 1]));
        }
    }
    assert forall|i: int| 0 <= i < now.len() implies own(#[trigger] now[i]) by {
        if i < past.len() {
            assert(now[i] == past[i]);
        }
    }
}

/// A pass leaves one more operation waiting.
proof fn lemma_pass_waits(
    s: State,
    x: State,
    done: Seq<OperationModel>,
    ops: Seq<OperationModel>,
    n: int,
    all: Seq<OperationModel>,
)
    requires
        goes_through(s, x, done, ops, all),
        0 < n <= ops.len(),
        !run_ops(x, ops, n).failed,
        went(s, x, done, ops, n - 1),
        all_made_first(done + done_in(x, ops, n - 1), seq![ops[n - 1]]),
        !can_apply(run_ops(x, ops, n - 1).state, ops[n - 1]),
    ensures
        went(s, x, done, ops, n),
{
    let run = run_ops(x, ops, n);
    let now = done + done_in(x, ops, n);
    let before = run_ops(x, ops, n - 1);
    let tried = done_in(x, ops, n - 1);
    let past = done + tried;
    let op = ops[n - 1];
    let left = ops.skip(n - 1);
    assert(left[0] == op);
    assert(own(ops[n - 1]));
    assert(!observes(s.version, name_of(ops[n - 1])));
    assert forall|i: int| 0 <= i < past.len() implies made_first(#[trigger] past[i], op) by {
        assert(made_first(past[i], seq![op][0]));
    }
    assert forall|i: int| 0 <= i < ops.skip(n).len() implies #[trigger] ops.skip(n)[i] == left[i
        + 1] && may_come_first(op, ops.skip(n)[i]) by {
        assert(may_come_first(ops[n - 1], ops[n + i]));
    }
    let a = before.waiting;
    let b = run.waiting;
    let d = done_in(x, ops, n);
    assert(d == tried);
    assert(now == past);
    assert(b == a.push(op));
    assert(heart(run.state) =~= heart(before.state));
    assert forall|i: int| 0 <= i < b.len() implies run.state.deferred_replicas.contains(
        lamport_timestamp_of(#[trigger] b[i]).replica_id,
    ) && own(b[i]) by {
        if i < a.len() {
            assert(b[i] == a[i]);
        }
    }
    assert forall|i: int, j: int| 0 <= i < now.len() && 0 <= j < b.len() implies made_first(
        #[trigger] now[i],
        #[trigger] b[j],
    ) by {
        if j < a.len() {
            assert(b[j] == a[j]);
        } else {
            assert(made_first(past[i], op));
        }
    }
    assert forall|i: int, j: int|
        0 <= i < now.len() && 0 <= j < ops.skip(n).len() implies may_come_first(
        #[trigger] now[i],
        #[trigger] ops.skip(n)[j],
    ) by {
        assert(may_come_first(past[i], left[j + 1]));
    }
}

/// What a pass over some operations does.
proof fn lemma_pass(
    s: State,
    x: State,
    done: Seq<OperationModel>,
    ops: Seq<OperationModel>,
    n: int,
    all: Seq<OperationModel>,
)
    requires
        goes_through(s, x, done, ops, all),
        0 <= n <= ops.len(),
        !run_ops(x, ops, n).failed,
    ensures
        went(s, x, done, ops, n),
        forall|op: OperationModel|
            (#[trigger] done_in(x, ops, n).contains(op) || run_ops(x, ops, n).waiting.contains(op))
                <==> ops.take(n).contains(op),
    decreases n,
{
    let now = done + done_in(x, ops, n);
    assert forall|o: OperationModel|
        (#[trigger] done_in(x, ops, n).contains(o) || run_ops(x, ops, n).waiting.contains(o))
            <==> ops.take(n).contains(o) by {
        lemma_tried(x, ops, n, o);
    }
    if n == 0 {
        assert(now =~= done);
        assert(ops.skip(0) =~= ops);
    } else {
        let past = done + done_in(x, ops, n - 1);
        let op = ops[n - 1];
        lemma_pass(s, x, done, ops, n - 1, all);
        let left = ops.skip(n - 1);
        assert(left[0] == op);
        assert(own(ops[n - 1]));
        assert(!observes(s.version, name_of(ops[n - 1])));
        assert forall|i: int| 0 <= i < past.len() implies made_first(#[trigger] past[i], op) by {
            assert forall|k: int| 0 <= k < past.len() implies may_come_first(
                #[trigger] past[k],
                op,
            ) by {
                assert(may_come_first(past[k], left[0]));
            }
            lemma_made_first(heart(s), past, op, i);
        }
        if can_apply(run_ops(x, ops, n - 1).state, op) {
            lemma_pass_applies(s, x, done, ops, n, all);
        } else {
            lemma_pass_waits(s, x, done, ops, n, all);
        }
    }
}

/// No two operations of the lists were made at the same time.
pub open spec fn told_apart(a: Seq<OperationModel>, b: Seq<OperationModel>) -> bool {
    forall|i: int, j: int|
        0 <= i < a.len() && 0 <= j < b.len() && lamport_timestamp_of(#[trigger] a[i])
            == lamport_timestamp_of(#[trigger] b[j]) ==> a[i] == b[j]
}

/// A queue gets one more operation.
proof fn lemma_queued(ops: Seq<OperationModel>, op: OperationModel, replace: bool)
    requires
        told_apart(ops, seq![op]),
    ensures
        forall|o: OperationModel| #[trigger]
            queued(ops, op, replace).contains(o) <==> ops.contains(o) || o == op,
{
    let t = lamport_timestamp_of(op);
    let i = slot_from(ops, t, 0);
    let now = queued(ops, op, replace);
    lemma_slot_bounds(ops, t, 0);
    if i < ops.len() && lamport_timestamp_of(ops[i]) == t {
        assert(seq![op][0] == op);
        assert(ops[i] == op);
        assert(now =~= ops);
    }
    assert forall|o: OperationModel| #[trigger] now.contains(o) <==> ops.contains(o) || o
        == op by {
        if !(i < ops.len() && lamport_timestamp_of(ops[i]) == t) {
            if now.contains(o) {
                let k = now.index_of(o);
                if k < i {
                    assert(ops[k] == o);
                } else if k > i {
                    assert(ops[k - 1] == o);
                }
            }
            if ops.contains(o) {
                let k = ops.index_of(o);
                if k < i {
                    assert(now[k] == o);
                } else {
                    assert(now[k + 1] == o);
                }
            }
            assert(now[i] == op);
        } else {
            assert(ops.contains(ops[i]));
        }
    }
}

proof fn lemma_slot_bounds(ops: Seq<OperationModel>, t: Lamport, i: int)
    requires
        0 <= i <= ops.len(),
    ensures
        i <= slot_from(ops, t, i) <= ops.len(),
    decreases ops.len() - i,
{
    if i < ops.len() && after(t, lamport_timestamp_of(ops[i])) {
        lemma_slot_bounds(ops, t, i + 1);
    }
}

proof fn lemma_queued_all(
    ops: Seq<OperationModel>,
    more: Seq<OperationModel>,
    replace: bool,
    n: int,
)
    requires
        told_apart(ops, more),
        told_apart(more, more),
        0 <= n <= more.len(),
    ensures
        forall|o: OperationModel| #[trigger]
            queued_all(ops, more, replace, n).contains(o) <==> ops.contains(o) || more.take(
                n,
            ).contains(o),
    decreases n,
{
    let now = queued_all(ops, more, replace, n);
    if n > 0 {
        let before = queued_all(ops, more, replace, n - 1);
        let op = more[n - 1];
        lemma_queued_all(ops, more, replace, n - 1);
        assert(told_apart(before, seq![op])) by {
            assert forall|i: int, j: int|
                0 <= i < before.len() && 0 <= j < 1 && lamport_timestamp_of(#[trigger] before[i])
                    == lamport_timestamp_of(#[trigger] seq![op][j]) implies before[i] == op by {
                assert(before.contains(before[i]));
                if ops.contains(before[i]) {
                    let k = ops.index_of(before[i]);
                    assert(lamport_timestamp_of(ops[k]) == lamport_timestamp_of(more[n - 1]));
                } else {
                    let some = more.take(n - 1);
                    let k = some.index_of(before[i]);
                    assert(more[k] == before[i]);
                    assert(lamport_timestamp_of(more[k]) == lamport_timestamp_of(more[n - 1]));
                }
            }
        }
        lemma_queued(before, op, replace);
        assert forall|o: OperationModel| #[trigger] now.contains(o) <==> ops.contains(o)
            || more.take(n).contains(o) by {
            let all = more.take(n);
            let some = more.take(n - 1);
            if all.contains(o) {
                let k = all.index_of(o);
                if k < n - 1 {
                    assert(some[k] == o);
                }
            }
            if some.contains(o) {
                let k = some.index_of(o);
                assert(all[k] == o);
            }
            assert(all[n - 1] == op);
            assert(before.contains(o) <==> ops.contains(o) || some.contains(o));
        }
    } else {
        assert(more.take(0) =~= Seq::<OperationModel>::empty());
    }
}

/// What a queue holds after it has got some more operations.
pub proof fn lemma_enqueued(ops: Seq<OperationModel>, more: Seq<OperationModel>)
    requires
        told_apart(ops, more),
        told_apart(more, more),
    ensures
        forall|o: OperationModel| #[trigger]
            enqueued(ops, more).contains(o) <==> ops.contains(o) || more.contains(o),
{
    let none = Seq::<OperationModel>::empty();
    let sorted = sorted_ops(more);
    lemma_queued_all(none, more, false, more.len() as int);
    assert(more.take(more.len() as int) =~= more);
    assert forall|o: OperationModel| #[trigger] sorted.contains(o) <==> more.contains(o) by {
        assert(!none.contains(o));
    }
    assert forall|i: int, j: int|
        0 <= i < ops.len() && 0 <= j < sorted.len() && lamport_timestamp_of(#[trigger] ops[i])
            == lamport_timestamp_of(#[trigger] sorted[j]) implies ops[i] == sorted[j] by {
        assert(sorted.contains(sorted[j]));
        let k = more.index_of(sorted[j]);
        assert(lamport_timestamp_of(ops[i]) == lamport_timestamp_of(more[k]));
    }
    assert forall|i: int, j: int|
        0 <= i < sorted.len() && 0 <= j < sorted.len() && lamport_timestamp_of(
            #[trigger] sorted[i],
        ) == lamport_timestamp_of(#[trigger] sorted[j]) implies sorted[i] == sorted[j] by {
        assert(sorted.contains(sorted[i]) && sorted.contains(sorted[j]));
        let k = more.index_of(sorted[i]);
        let l = more.index_of(sorted[j]);
        assert(lamport_timestamp_of(more[k]) == lamport_timestamp_of(more[l]));
    }
    lemma_queued_all(ops, sorted, true, sorted.len() as int);
    assert(sorted.take(sorted.len() as int) =~= sorted);
}

/// Where a buffer stands that has been given some operations: it has applied
/// `done`, and the others wait.
pub open spec fn has_got(
    s: State,
    x: State,
    done: Seq<OperationModel>,
    given: Seq<OperationModel>,
) -> bool {
    &&& stands(s, x, done)
    &&& in_order(x.deferred_ops)
    &&& forall|op: OperationModel| #[trigger]
        given.contains(op) <==> done.contains(op) || x.deferred_ops.contains(op)
}

/// One of the operations is no earlier one of its replica than `t`, and was made
/// before `op`.
pub open spec fn told_of(ops: Seq<OperationModel>, op: OperationModel, t: Local) -> bool {
    exists|k: int|
        0 <= k < ops.len() && (#[trigger] name_of(ops[k])).replica_id == t.replica_id && name_of(
            ops[k],
        ).value >= t.value && after(lamport_timestamp_of(op), lamport_timestamp_of(ops[k]))
}

/// What an operation builds on is there already, or among the operations.
pub open spec fn complete(s: State, ops: Seq<OperationModel>) -> bool {
    forall|i: int, t: Local|
        0 <= i < ops.len() && observes(version_of(#[trigger] ops[i]), t) ==> observes(s.version, t)
            || #[trigger] told_of(ops, ops[i], t)
}

/// The operations of a list are among those of another.
pub open spec fn among(some: Seq<OperationModel>, all: Seq<OperationModel>) -> bool {
    forall|op: OperationModel| #[trigger] some.contains(op) ==> all.contains(op)
}

pub proof fn lemma_plus(a: Seq<OperationModel>, b: Seq<OperationModel>, op: OperationModel)
    ensures
        (a + b).contains(op) <==> a.contains(op) || b.contains(op),
{
    let all = a + b;
    if all.contains(op) {
        let k = all.index_of(op);
        if k < a.len() {
            assert(a[k] == op);
        } else {
            assert(b[k - a.len()] == op);
        }
    }
    if a.contains(op) {
        let k = a.index_of(op);
        assert(all[k] == op);
    }
    if b.contains(op) {
        let k = b.index_of(op);
        assert(all[a.len() + k] == op);
    }
}

/// Which of two operations in the right order comes first, and that two that
/// were made at the same time are the same.
proof fn lemma_two(all: Seq<OperationModel>, a: OperationModel, b: OperationModel)
    requires
        in_own_order(all),
        all.contains(a),
        all.contains(b),
    ensures
        own(a),
        lamport_timestamp_of(a) == lamport_timestamp_of(b) ==> a == b,
        after(lamport_timestamp_of(b), lamport_timestamp_of(a)) ==> made_first(a, b),
{
    let i = all.index_of(a);
    let j = all.index_of(b);
    assert(own(all[i]) && own(all[j]));
    if i < j {
        assert(may_come_first(all[i], all[j]));
    } else if j < i {
        assert(may_come_first(all[j], all[i]));
    }
}

proof fn lemma_told_apart(
    all: Seq<OperationModel>,
    a: Seq<OperationModel>,
    b: Seq<OperationModel>,
)
    requires
        in_own_order(all),
        among(a, all),
        among(b, all),
    ensures
        told_apart(a, b),
{
    assert forall|i: int, j: int|
        0 <= i < a.len() && 0 <= j < b.len() && lamport_timestamp_of(#[trigger] a[i])
            == lamport_timestamp_of(#[trigger] b[j]) implies a[i] == b[j] by {
        assert(a.contains(a[i]) && b.contains(b[j]));
        lemma_two(all, a[i], b[j]);
    }
}

/// A queue holds the operations of each replica in the right order.
proof fn lemma_queue_order(s: State, all: Seq<OperationModel>, queue: Seq<OperationModel>)
    requires
        in_own_order(all),
        all_new(s, all),
        among(queue, all),
        in_order(queue),
    ensures
        in_own_order(queue),
        all_new(s, queue),
{
    assert forall|i: int| 0 <= i < queue.len() implies own(#[trigger] queue[i]) by {
        assert(queue.contains(queue[i]));
        lemma_two(all, queue[i], queue[i]);
    }
    assert forall|i: int| 0 <= i < queue.len() implies !observes(
        s.version,
        #[trigger] name_of(queue[i]),
    ) by {
        assert(queue.contains(queue[i]));
        let k = all.index_of(queue[i]);
        assert(!observes(s.version, name_of(all[k])));
    }
    assert forall|i: int, j: int| 0 <= i < j < queue.len() implies may_come_first(
        #[trigger] queue[i],
        #[trigger] queue[j],
    ) by {
        assert(queue.contains(queue[i]) && queue.contains(queue[j]));
        lemma_two(all, queue[i], queue[j]);
    }
}

/// Where everything is there, nothing waits after a pass in the order of time.
proof fn lemma_none_waits(
    s: State,
    x: State,
    done: Seq<OperationModel>,
    queue: Seq<OperationModel>,
    all: Seq<OperationModel>,
    n: int,
)
    requires
        stands(s, x, done),
        x.deferred_replicas == Set::<ReplicaId>::empty(),
        in_own_order(queue),
        all_new(s, queue),
        all_made_first(done, queue),
        in_order(queue),
        0 <= n <= queue.len(),
        !run_ops(x, queue, n).failed,
        complete(s, all),
        timed(s, all),
        forall|op: OperationModel| #[trigger]
            all.contains(op) <==> done.contains(op) || queue.contains(op),
    ensures
        run_ops(x, queue, n).waiting.len() == 0,
    decreases n,
{
    if n > 0 {
        let before = run_ops(x, queue, n - 1);
        let op = queue[n - 1];
        lemma_none_waits(s, x, done, queue, all, n - 1);
        assert(among(done, all)) by {
            assert forall|o: OperationModel| #[trigger] done.contains(o) implies all.contains(
                o,
            ) by {}
        }
        assert(among(queue, all)) by {
            assert forall|o: OperationModel| #[trigger] queue.contains(o) implies all.contains(
                o,
            ) by {}
        }
        lemma_pass(s, x, done, queue, n - 1, all);
        let tried = done_in(x, queue, n - 1);
        let past = done + tried;
        lemma_took(heart(s), past);
        let now = before.state.version;
        if !can_apply(before.state, op) {
            assert(own(queue[n - 1]));
            let v = version_of(op);
            assert(!includes(now, v));
            let r = choose|r: ReplicaId| seen_of(now, r) < #[trigger] seen_of(v, r);
            let t = Local { replica_id: r, value: seen_of(v, r) };
            assert(observes(v, t) && !observes(now, t));
            assert(queue.contains(queue[n - 1]));
            assert(all.contains(op));
            let i = all.index_of(op);
            assert(all[i] == op);
            assert(observes(s.version, t) || told_of(all, all[i], t));
            assert(!observes(s.version, t));
            let k = choose|k: int|
                0 <= k < all.len() && (#[trigger] name_of(all[k])).replica_id == t.replica_id
                    && name_of(all[k]).value >= t.value && after(
                    lamport_timestamp_of(op),
                    lamport_timestamp_of(all[k]),
                );
            let u = all[k];
            assert(all.contains(u));
            if !done.contains(u) {
                let m = queue.index_of(u);
                assert(queue[m] == u);
                if m > n - 1 {
                    assert(after(
                        lamport_timestamp_of(queue[m]),
                        lamport_timestamp_of(queue[n - 1]),
                    ));
                }
                assert(m < n - 1);
                assert(queue.take(n - 1)[m] == u);
                assert(queue.take(n - 1).contains(u));
                assert(tried.contains(u) || before.waiting.contains(u));
            }
            lemma_plus(done, tried, u);
            let j = past.index_of(u);
            assert(past[j] == u);
            assert(name_of(past[j]).replica_id == t.replica_id);
            assert(named(past, t));
        }
    }
}

/// A buffer that is about to try again what waits.
pub open spec fn reopened(s: State) -> State {
    State { deferred_replicas: Set::empty(), deferred_ops: Seq::empty(), ..s }
}

/// What holds before a second pass.
pub open spec fn ready(
    s: State,
    held: State,
    past: Seq<OperationModel>,
    all: Seq<OperationModel>,
) -> bool {
    &&& stands(s, reopened(held), past)
    &&& in_own_order(held.deferred_ops)
    &&& all_new(s, held.deferred_ops)
    &&& all_made_first(past, held.deferred_ops)
    &&& in_order(held.deferred_ops)
    &&& forall|op: OperationModel| #[trigger]
        all.contains(op) <==> past.contains(op) || held.deferred_ops.contains(op)
}

/// A batch as such is in the right order too.
proof fn lemma_batch_order(
    s: State,
    done: Seq<OperationModel>,
    given: Seq<OperationModel>,
    batch: Seq<OperationModel>,
)
    requires
        in_own_order(given + batch),
        all_new(s, given + batch),
        among(done, given),
    ensures
        in_own_order(batch),
        all_new(s, batch),
        all_may_come_first(done, batch),
{
    let all = given + batch;
    assert forall|i: int| 0 <= i < batch.len() implies #[trigger] batch[i] == all[given.len() + i]
        && own(batch[i]) && !observes(s.version, name_of(batch[i])) by {
        assert(own(all[given.len() + i]));
        assert(!observes(s.version, name_of(all[given.len() + i])));
    }
    assert forall|i: int, j: int| 0 <= i < j < batch.len() implies may_come_first(
        #[trigger] batch[i],
        #[trigger] batch[j],
    ) by {
        assert(may_come_first(all[given.len() + i], all[given.len() + j]));
    }
    assert forall|i: int, j: int|
        0 <= i < done.len() && 0 <= j < batch.len() implies may_come_first(
        #[trigger] done[i],
        #[trigger] batch[j],
    ) by {
        assert(done.contains(done[i]));
        let k = given.index_of(done[i]);
        assert(all[k] == done[i]);
        assert(may_come_first(all[k], all[given.len() + j]));
    }
}

/// The first pass over a batch, and what waits after it.
proof fn lemma_first_pass(
    s: State,
    x: State,
    done: Seq<OperationModel>,
    given: Seq<OperationModel>,
    batch: Seq<OperationModel>,
) -> (past: Seq<OperationModel>)
    requires
        has_got(s, x, done, given),
        in_own_order(given + batch),
        all_new(s, given + batch),
        timed(s, given + batch),
        !first_run(x, batch).failed,
    ensures
        ready(s, run_queued(first_run(x, batch)), past, given + batch),
{
    let all = given + batch;
    let start = State { pending_autoindent: false, ..x };
    let run = first_run(x, batch);
    let n = batch.len() as int;
    assert(heart(start) =~= heart(x));
    lemma_batch_order(s, done, given, batch);
    assert(stands(s, start, done));
    assert(among(done, all)) by {
        assert forall|op: OperationModel| #[trigger] done.contains(op) implies all.contains(op) by {
            assert(given.contains(op));
            lemma_plus(given, batch, op);
        }
    }
    assert(among(batch, all)) by {
        assert forall|op: OperationModel| #[trigger] batch.contains(op) implies all.contains(
            op,
        ) by {
            lemma_plus(given, batch, op);
        }
    }
    lemma_pass(s, start, done, batch, n, all);
    let first = done_in(start, batch, n);
    let past = done + first;
    let waiting = run.waiting;
    assert(batch.take(n) =~= batch);
    assert forall|op: OperationModel| #[trigger]
        batch.contains(op) <==> first.contains(op) || waiting.contains(op) by {
        assert(first.contains(op) || waiting.contains(op) <==> batch.take(n).contains(op));
    }
    let earlier = x.deferred_ops;
    let queue = enqueued(earlier, waiting);
    assert forall|op: OperationModel| #[trigger] earlier.contains(op) implies all.contains(op) by {
        assert(given.contains(op));
        lemma_plus(given, batch, op);
    }
    assert forall|op: OperationModel| #[trigger] waiting.contains(op) implies all.contains(op) by {
        assert(batch.contains(op));
        lemma_plus(given, batch, op);
    }
    lemma_told_apart(all, earlier, waiting);
    lemma_told_apart(all, waiting, waiting);
    lemma_enqueued(earlier, waiting);
    law_queue_stays_in_order(earlier, waiting);
    assert(among(queue, all));
    lemma_queue_order(s, all, queue);
    let held = run_queued(run);
    assert(held.deferred_ops == queue);
    assert(heart(reopened(held)) =~= heart(run.state));
    assert forall|i: int, j: int| 0 <= i < past.len() && 0 <= j < queue.len() implies made_first(
        #[trigger] past[i],
        #[trigger] queue[j],
    ) by {
        assert(queue.contains(queue[j]));
        if earlier.contains(queue[j]) {
            let k = earlier.index_of(queue[j]);
            assert(made_first(past[i], run.state.deferred_ops[k]));
        } else {
            let k = waiting.index_of(queue[j]);
            assert(made_first(past[i], waiting[k]));
        }
    }
    assert forall|op: OperationModel| #[trigger] all.contains(op) <==> past.contains(op)
        || queue.contains(op) by {
        lemma_plus(given, batch, op);
        lemma_plus(done, first, op);
        assert(batch.contains(op) <==> first.contains(op) || waiting.contains(op));
        assert(given.contains(op) <==> done.contains(op) || earlier.contains(op));
        assert(queue.contains(op) <==> earlier.contains(op) || waiting.contains(op));
    }
    past
}

/// The second pass, over what waits.
proof fn lemma_second_pass(
    s: State,
    held: State,
    past: Seq<OperationModel>,
    all: Seq<OperationModel>,
) -> (now: Seq<OperationModel>)
    requires
        ready(s, held, past, all),
        in_own_order(all),
        timed(s, all),
        !flush_run(held).failed,
    ensures
        has_got(s, flushed(held), now, all),
        complete(s, all) ==> flushed(held).deferred_ops.len() == 0,
{
    let queue = held.deferred_ops;
    let open = reopened(held);
    let m = queue.len() as int;
    assert(among(past, all)) by {
        assert forall|op: OperationModel| #[trigger] past.contains(op) implies all.contains(op) by {
        }
    }
    assert(among(queue, all)) by {
        assert forall|op: OperationModel| #[trigger] queue.contains(op) implies all.contains(
            op,
        ) by {}
    }
    lemma_pass(s, open, past, queue, m, all);
    let second = done_in(open, queue, m);
    let now = past + second;
    let again = flush_run(held);
    let waiting = again.waiting;
    assert(queue.take(m) =~= queue);
    assert forall|op: OperationModel| #[trigger]
        queue.contains(op) <==> second.contains(op) || waiting.contains(op) by {
        assert(second.contains(op) || waiting.contains(op) <==> queue.take(m).contains(op));
    }
    let none = Seq::<OperationModel>::empty();
    assert forall|op: OperationModel| #[trigger] waiting.contains(op) implies all.contains(op) by {
        assert(queue.contains(op));
    }
    lemma_told_apart(all, waiting, waiting);
    assert(told_apart(none, waiting));
    lemma_enqueued(none, waiting);
    law_queue_stays_in_order(none, waiting);
    let left = enqueued(none, waiting);
    let end = flushed(held);
    assert(end.deferred_ops == left);
    assert(heart(end) =~= heart(again.state));
    assert forall|i: int| 0 <= i < left.len() implies end.deferred_replicas.contains(
        lamport_timestamp_of(#[trigger] left[i]).replica_id,
    ) && own(left[i]) by {
        assert(left.contains(left[i]));
        assert(!none.contains(left[i]));
        let k = waiting.index_of(left[i]);
        assert(waiting[k] == left[i]);
    }
    assert forall|i: int, j: int| 0 <= i < now.len() && 0 <= j < left.len() implies made_first(
        #[trigger] now[i],
        #[trigger] left[j],
    ) by {
        assert(left.contains(left[j]));
        assert(!none.contains(left[j]));
        let k = waiting.index_of(left[j]);
        assert(made_first(now[i], waiting[k]));
    }
    assert forall|op: OperationModel| #[trigger] all.contains(op) <==> now.contains(op)
        || left.contains(op) by {
        lemma_plus(past, second, op);
        assert(!none.contains(op));
        assert(queue.contains(op) <==> second.contains(op) || waiting.contains(op));
        assert(left.contains(op) <==> none.contains(op) || waiting.contains(op));
    }
    if complete(s, all) {
        lemma_none_waits(s, open, past, queue, all, m);
        if left.len() > 0 {
            assert(left.contains(left[0]));
            assert(!none.contains(left[0]));
        }
    }
    now
}

/// What one more batch does.
proof fn lemma_batch(
    s: State,
    x: State,
    done: Seq<OperationModel>,
    given: Seq<OperationModel>,
    batch: Seq<OperationModel>,
) -> (now: Seq<OperationModel>)
    requires
        has_got(s, x, done, given),
        in_own_order(given + batch),
        all_new(s, given + batch),
        timed(s, given + batch),
        !ops_fail(x, batch),
    ensures
        has_got(s, ops_applied(x, batch), now, given + batch),
        complete(s, given + batch) ==> ops_applied(x, batch).deferred_ops.len() == 0,
{
    let past = lemma_first_pass(s, x, done, given, batch);
    let held = run_queued(first_run(x, batch));
    let now = lemma_second_pass(s, held, past, given + batch);
    let end = ops_applied(x, batch);
    assert(heart(end) =~= heart(flushed(held)));
    now
}

/// A buffer after some batches of operations, one after the other.
pub open spec fn after_batches(s: State, batches: Seq<Seq<OperationModel>>) -> State
    decreases batches.len(),
{
    if batches.len() == 0 {
        s
    } else {
        ops_applied(after_batches(s, batches.drop_last()), batches.last())
    }
}

/// None of the batches holds an operation that names no place.
pub open spec fn batches_fit(s: State, batches: Seq<Seq<OperationModel>>) -> bool
    decreases batches.len(),
{
    batches.len() > 0 ==> batches_fit(s, batches.drop_last()) && !ops_fail(
        after_batches(s, batches.drop_last()),
        batches.last(),
    )
}

/// The operations of all the batches.
pub open spec fn all_ops(batches: Seq<Seq<OperationModel>>) -> Seq<OperationModel>
    decreases batches.len(),
{
    if batches.len() == 0 {
        Seq::empty()
    } else {
        all_ops(batches.drop_last()) + batches.last()
    }
}

/// A buffer without anything that waits.
pub open spec fn at_rest(s: State) -> bool {
    s.deferred_ops.len() == 0 && s.deferred_replicas == Set::<ReplicaId>::empty()
}

/// Whatever the batches, a buffer ends up as if it had got one by one those of
/// the operations that do not wait, each when it could be applied. Nothing waits
/// once all that the operations build on is there.
pub proof fn law_batches_are_one_by_one(s: State, batches: Seq<Seq<OperationModel>>) -> (done: Seq<
    OperationModel,
>)
    requires
        at_rest(s),
        batches_fit(s, batches),
        in_own_order(all_ops(batches)),
        all_new(s, all_ops(batches)),
        timed(s, all_ops(batches)),
    ensures
        has_got(s, after_batches(s, batches), done, all_ops(batches)),
        complete(s, all_ops(batches)) ==> after_batches(s, batches).deferred_ops.len() == 0,
    decreases batches.len(),
{
    if batches.len() == 0 {
        let none = Seq::<OperationModel>::empty();
        assert(s.deferred_ops =~= none);
        none
    } else {
        let past = batches.drop_last();
        let given = all_ops(past);
        let batch = batches.last();
        assert forall|i: int| 0 <= i < given.len() implies #[trigger] given[i] == all_ops(
            batches,
        )[i] by {}
        assert(in_own_order(given)) by {
            assert forall|i: int| 0 <= i < given.len() implies own(#[trigger] given[i]) by {
                assert(own(all_ops(batches)[i]));
            }
            assert forall|i: int, j: int| 0 <= i < j < given.len() implies may_come_first(
                #[trigger] given[i],
                #[trigger] given[j],
            ) by {
                assert(may_come_first(all_ops(batches)[i], all_ops(batches)[j]));
            }
        }
        assert forall|i: int| 0 <= i < given.len() implies !observes(
            s.version,
            #[trigger] name_of(given[i]),
        ) by {
            assert(!observes(s.version, name_of(all_ops(batches)[i])));
        }
        assert(timed(s, given)) by {
            assert forall|op: OperationModel| #[trigger] given.contains(op) implies all_ops(
                batches,
            ).contains(op) by {
                lemma_plus(given, batch, op);
            }
        }
        let done = law_batches_are_one_by_one(s, past);
        lemma_batch(s, after_batches(s, past), done, given, batch)
    }
}

/// When an operation comes, those before it have been seen, and it has not.
proof fn lemma_when(s: State, ops: Seq<OperationModel>, i: int, k: int)
    requires
        takes(s, ops),
        0 <= i < ops.len(),
        0 <= k < ops.len(),
    ensures
        can_apply(took(s, ops.take(k)), ops[k]),
        !observes(took(s, ops.take(k)).version, name_of(ops[k])),
        i < k ==> observes(took(s, ops.take(k)).version, name_of(ops[i])),
        i < k ==> includes(took(s, ops.take(k)).version, took(s, ops.take(i)).version),
    decreases k,
{
    lemma_took_next(s, ops, k);
    assert(ops.skip(k)[0] == ops[k]);
    let past = ops.take(k);
    lemma_took(s, past);
    if i < k {
        assert(past[i] == ops[i]);
        assert(name_of(past[i]).replica_id == name_of(ops[i]).replica_id);
        assert(named(past, name_of(ops[i])));
        lemma_took_next(s, ops, k - 1);
        lemma_took(s, ops.take(k - 1));
        lemma_took_more(s, ops.take(k - 1), ops, k);
        if i < k - 1 {
            lemma_when(s, ops, i, k - 1);
            assert forall|r: ReplicaId| seen_of(took(s, past).version, r) >= #[trigger] seen_of(
                took(s, ops.take(i)).version,
                r,
            ) by {
                assert(seen_of(took(s, ops.take(k - 1)).version, r) >= seen_of(
                    took(s, ops.take(i)).version,
                    r,
                ));
                assert(seen_of(took(s, past).version, r) >= seen_of(
                    took(s, ops.take(k - 1)).version,
                    r,
                ));
            }
        }
    }
}

/// One operation more, and nothing that was seen is forgotten.
proof fn lemma_took_more(s: State, past: Seq<OperationModel>, ops: Seq<OperationModel>, k: int)
    requires
        takes(s, ops),
        0 < k <= ops.len(),
        past == ops.take(k - 1),
    ensures
        includes(took(s, ops.take(k)).version, took(s, past).version),
{
    lemma_took_next(s, ops, k - 1);
    assert(ops.skip(k - 1)[0] == ops[k - 1]);
    lemma_applied(took(s, past), ops[k - 1]);
}

/// Edits that come one by one were made at different times.
proof fn lemma_edits_apart(all: Seq<OperationModel>, ops: Seq<OperationModel>)
    requires
        in_own_order(all),
        among(ops, all),
        forall|i: int, j: int| 0 <= i < j < ops.len() ==> #[trigger] ops[i] != #[trigger] ops[j],
    ensures
        at_different_times(edits_in(ops)),
    decreases ops.len(),
{
    let edits = edits_in(ops);
    if ops.len() > 0 {
        let rest = ops.skip(1);
        let others = edits_in(rest);
        assert forall|op: OperationModel| #[trigger] rest.contains(op) implies all.contains(op) by {
            let k = rest.index_of(op);
            assert(ops[k + 1] == op);
            assert(ops.contains(op));
        }
        assert forall|i: int, j: int| 0 <= i < j < rest.len() implies #[trigger] rest[i]
            != #[trigger] rest[j] by {
            assert(ops[i + 1] != ops[j + 1]);
        }
        lemma_edits_apart(all, rest);
        assert forall|i: int, j: int| 0 <= i < j < edits.len() implies lamport_of(
            (#[trigger] edits[i]).timestamp,
        ) != lamport_of((#[trigger] edits[j]).timestamp) by {
            if ops[0] is Edit {
                assert(edits[j] == others[j - 1]);
                if i > 0 {
                    assert(edits[i] == others[i - 1]);
                } else {
                    let a = ops[0];
                    let b = OperationModel::Edit(others[j - 1]);
                    assert(others.contains(others[j - 1]));
                    lemma_edits_in(rest, others[j - 1]);
                    let k = rest.index_of(b);
                    assert(ops[k + 1] == b);
                    assert(ops[0] != ops[k + 1]);
                    assert(ops.contains(ops[0]) && ops.contains(ops[k + 1]));
                    lemma_two(all, a, b);
                }
            }
        }
    }
}

/// Operations that a buffer has taken one by one differ.
pub proof fn lemma_taken_apart(s: State, all: Seq<OperationModel>, done: Seq<OperationModel>)
    requires
        takes(s, done),
        in_own_order(all),
        among(done, all),
    ensures
        at_different_times(edits_in(done)),
{
    assert forall|i: int, j: int| 0 <= i < j < done.len() implies #[trigger] done[i]
        != #[trigger] done[j] by {
        lemma_when(s, done, i, j);
    }
    lemma_edits_apart(all, done);
}

/// The undo undoes edits that its replica had made before.
pub open spec fn undoes_own(undo: Undo) -> bool {
    forall|id: Local| #[trigger]
        undo.counts.contains_key(id) ==> id.replica_id == undo.id.replica_id && id.value
            < undo.id.value
}

/// Each of the undos was made by a replica that had started from the same state
/// and had received some of the operations.
pub open spec fn undos_made(s: State, all: Seq<OperationModel>) -> bool {
    forall|i: int|
        0 <= i < all.len() && (#[trigger] all[i]) is Undo ==> well_made(
            heart(s),
            all,
            all[i]->undo,
        ) && undoes_own(all[i]->undo)
}

/// When an undo comes, what it knows of has come.
proof fn lemma_undos_made(s: State, all: Seq<OperationModel>, done: Seq<OperationModel>)
    requires
        takes(heart(s), done),
        undos_made(s, all),
        forall|op: OperationModel| #[trigger] all.contains(op) <==> done.contains(op),
    ensures
        undos_well_made(heart(s), done),
{
    assert forall|i: int| 0 <= i < done.len() && (#[trigger] done[i]) is Undo implies well_made(
        heart(s),
        done.take(i),
        done[i]->undo,
    ) by {
        let undo = done[i]->undo;
        let known = having_seen(undo.version, undo.counts.dom());
        assert(done.contains(done[i]));
        assert(all.contains(done[i]));
        let l = all.index_of(done[i]);
        assert(all[l] is Undo);
        assert(well_made(heart(s), all, undo));
        let origin = choose|origin: Seq<OperationModel>| #[trigger]
            made_with(heart(s), origin, all, undo);
        let past = done.take(i);
        assert forall|op: OperationModel| #[trigger]
            origin.contains(op) <==> past.contains(op) && observes(known, name_of(op)) by {
            if origin.contains(op) {
                assert(all.contains(op));
                let k = done.index_of(op);
                assert(done[k] == op);
                let t = name_of(op);
                lemma_when(heart(s), done, i, k);
                lemma_when(heart(s), done, i, i);
                let now = took(heart(s), past);
                if observes(undo.version, t) {
                    // It has been seen by the time the undo can be applied.
                    assert(seen_of(now.version, t.replica_id) >= seen_of(
                        undo.version,
                        t.replica_id,
                    ));
                    if k > i {
                        assert(seen_of(
                            took(heart(s), done.take(k)).version,
                            t.replica_id,
                        ) >= seen_of(now.version, t.replica_id));
                    }
                } else {
                    // It comes from the same replica, which made it before.
                    lemma_having_seen_only(undo.version, undo.counts.dom(), t);
                    let d = choose|d: Local| #[trigger]
                        undo.counts.dom().contains(d) && d.replica_id == t.replica_id && d.value
                            >= t.value;
                    assert(undo.counts.contains_key(d));
                }
                assert(k < i);
                assert(past[k] == op);
            }
            if past.contains(op) {
                let k = past.index_of(op);
                assert(done[k] == op);
                assert(done.contains(op));
                assert(all.contains(op));
            }
        }
        assert(made_with(heart(s), origin, past, undo));
    }
}

/// Two replicas that started from the same state, and have been handed the same
/// edits and undos, in whatever batches and in whatever order, as long as those of
/// each replica come as it made them or know of the ones that come late: once all
/// that the operations build on is there, nothing waits on either of them, they
/// hold the same cells, with the same deletions, in the same order, they have seen
/// the same operations and have the same undos on record. They show the same text
/// if the state was settled and the undos are such as replicas make.
pub proof fn law_batches_converge(
    s: State,
    first: Seq<Seq<OperationModel>>,
    second: Seq<Seq<OperationModel>>,
)
    requires
        at_rest(s),
        batches_fit(s, first),
        batches_fit(s, second),
        in_own_order(all_ops(first)),
        in_own_order(all_ops(second)),
        all_new(s, all_ops(first)),
        timed(s, all_ops(first)),
        complete(s, all_ops(first)),
        complete(s, all_ops(second)),
        forall|op: OperationModel| #[trigger]
            all_ops(first).contains(op) <==> all_ops(second).contains(op),
    ensures
        ({
            let a = after_batches(s, first);
            let b = after_batches(s, second);
            &&& a.deferred_ops.len() == 0
            &&& b.deferred_ops.len() == 0
            &&& bare(a.cells) == bare(b.cells)
            &&& logs_agree(a.log, b.log)
            &&& same_version(a.version, b.version)
            &&& settled(s.cells, s.log, s.version) && undos_made(s, all_ops(first)) ==> a.text()
                == b.text()
        }),
{
    let a = after_batches(s, first);
    let b = after_batches(s, second);
    let one = all_ops(first);
    let two = all_ops(second);
    assert forall|i: int| 0 <= i < two.len() implies !observes(
        s.version,
        #[trigger] name_of(two[i]),
    ) by {
        assert(two.contains(two[i]));
        assert(one.contains(two[i]));
        let k = one.index_of(two[i]);
        assert(!observes(s.version, name_of(one[k])));
    }
    assert(timed(s, two)) by {
        assert forall|op: OperationModel| #[trigger] two.contains(op) implies one.contains(op) by {}
    }
    let x = lemma_all_done(s, first);
    let y = lemma_all_done(s, second);
    assert forall|op: OperationModel| #[trigger] x.contains(op) <==> y.contains(op) by {
        assert(one.contains(op) <==> x.contains(op));
        assert(two.contains(op) <==> y.contains(op));
        assert(one.contains(op) <==> two.contains(op));
    }
    law_replicas_converge_with_undos(heart(s), x, y);
    if settled(s.cells, s.log, s.version) && undos_made(s, one) {
        lemma_undos_made(s, one, x);
        lemma_undos_named(s, one, two);
        lemma_undos_made(s, two, y);
        law_replicas_agree(heart(s), x, y);
    }
}

/// Once all is there, all has been applied.
pub proof fn lemma_all_done(s: State, batches: Seq<Seq<OperationModel>>) -> (done: Seq<
    OperationModel,
>)
    requires
        at_rest(s),
        batches_fit(s, batches),
        in_own_order(all_ops(batches)),
        all_new(s, all_ops(batches)),
        timed(s, all_ops(batches)),
        complete(s, all_ops(batches)),
    ensures
        takes(heart(s), done),
        forall|op: OperationModel| #[trigger] all_ops(batches).contains(op) <==> done.contains(op),
        at_different_times(edits_in(done)),
        ({
            let a = after_batches(s, batches);
            let b = took(heart(s), done);
            &&& a.deferred_ops.len() == 0
            &&& a.cells == b.cells
            &&& a.log == b.log
            &&& a.version == b.version
            &&& a.text() == b.text()
        }),
{
    let all = all_ops(batches);
    let a = after_batches(s, batches);
    let done = law_batches_are_one_by_one(s, batches);
    assert forall|op: OperationModel| #[trigger] all.contains(op) <==> done.contains(op) by {
        assert(all.contains(op) <==> done.contains(op) || a.deferred_ops.contains(op));
    }
    assert forall|op: OperationModel| #[trigger] done.contains(op) implies all.contains(op) by {
        assert(all.contains(op) <==> done.contains(op));
    }
    lemma_taken_apart(heart(s), all, done);
    assert(heart(a).cells == a.cells && heart(a).log == a.log && heart(a).version == a.version);
    done
}

/// That undos were made as they are does not rest on the order of the
/// operations.
proof fn lemma_undos_named(s: State, one: Seq<OperationModel>, two: Seq<OperationModel>)
    requires
        undos_made(s, one),
        forall|op: OperationModel| #[trigger] one.contains(op) <==> two.contains(op),
    ensures
        undos_made(s, two),
{
    assert forall|i: int| 0 <= i < two.len() && (#[trigger] two[i]) is Undo implies well_made(
        heart(s),
        two,
        two[i]->undo,
    ) && undoes_own(two[i]->undo) by {
        let undo = two[i]->undo;
        assert(two.contains(two[i]));
        assert(one.contains(two[i]));
        let k = one.index_of(two[i]);
        assert(one[k] is Undo);
        let origin = choose|origin: Seq<OperationModel>| #[trigger]
            made_with(heart(s), origin, one, undo);
        let known = having_seen(undo.version, undo.counts.dom());
        assert forall|op: OperationModel| #[trigger]
            origin.contains(op) <==> two.contains(op) && observes(known, name_of(op)) by {
            assert(one.contains(op) <==> two.contains(op));
        }
        assert(made_with(heart(s), origin, two, undo));
    }
}

} // verus!
