//! Laws of replicas: what they hold after they have received the same
//! operations.

use vstd::prelude::*;

use crate::clock::{Local, ReplicaId, Version, includes, observes, observing, same_version, seen_of};
use crate::converge::{
    edit_done, law_concurrent_edits_commute, lemma_placed_before, placed_in, plan_of, unaware,
};
use crate::document::Cell;
use crate::fragment::{lamport_of, local_of};
use crate::operation::{EditModel, OperationModel};
use crate::state::{State, applied, can_apply, op_fits, remote_edit_applied};
use crate::undo_map::UndoLog;
use crate::weave::{lemma_plain_plan, touched};

verus! {

/// The edit has no ranges, or names places of the document.
pub open spec fn fits_in(cells: Seq<Cell>, e: EditModel) -> bool {
    e.ranges.len() > 0 ==> placed_in(cells, e)
}

/// A document after some edits, one after the other.
pub open spec fn edits_done(cells: Seq<Cell>, log: UndoLog, edits: Seq<EditModel>) -> Seq<Cell>
    decreases edits.len(),
{
    if edits.len() == 0 {
        cells
    } else {
        edits_done(edit_done(cells, log, edits[0]), log, edits.skip(1))
    }
}

/// Each edit names places of the document that it finds.
pub open spec fn edits_placed(cells: Seq<Cell>, log: UndoLog, edits: Seq<EditModel>) -> bool
    decreases edits.len(),
{
    edits.len() > 0 ==> fits_in(cells, edits[0]) && edits_placed(
        edit_done(cells, log, edits[0]),
        log,
        edits.skip(1),
    )
}

/// No edit knows of one that comes after it.
pub open spec fn in_causal_order(edits: Seq<EditModel>) -> bool {
    forall|i: int, j: int|
        0 <= i < j < edits.len() ==> unaware(#[trigger] edits[i], #[trigger] edits[j])
}

/// No two edits were made at the same time.
pub open spec fn at_different_times(edits: Seq<EditModel>) -> bool {
    forall|i: int, j: int|
        0 <= i < j < edits.len() ==> lamport_of((#[trigger] edits[i]).timestamp) != lamport_of(
            (#[trigger] edits[j]).timestamp,
        )
}

/// Two edits that do not know of each other, the second of them made first.
pub proof fn lemma_swap(cells: Seq<Cell>, log: UndoLog, a: EditModel, b: EditModel)
    requires
        fits_in(cells, a),
        fits_in(edit_done(cells, log, a), b),
        unaware(a, b),
        unaware(b, a),
        lamport_of(a.timestamp) != lamport_of(b.timestamp),
    ensures
        fits_in(cells, b),
        fits_in(edit_done(cells, log, b), a),
        edit_done(edit_done(cells, log, a), log, b) == edit_done(
            edit_done(cells, log, b),
            log,
            a,
        ),
{
    if a.ranges.len() == 0 {
        lemma_no_ranges(cells, log, a);
        lemma_no_ranges(edit_done(cells, log, b), log, a);
    } else if b.ranges.len() == 0 {
        lemma_no_ranges(cells, log, b);
        lemma_no_ranges(edit_done(cells, log, a), log, b);
    } else {
        lemma_placed_before(cells, log, a, b);
        law_concurrent_edits_commute(cells, log, a, b);
    }
}

/// An edit comes to the front past others that it does not know of, and that do
/// not know of it.
proof fn lemma_bring_front(cells: Seq<Cell>, log: UndoLog, edits: Seq<EditModel>, j: int)
    requires
        0 <= j < edits.len(),
        edits_placed(cells, log, edits),
        forall|i: int|
            0 <= i < j ==> unaware(#[trigger] edits[i], edits[j]) && unaware(edits[j], edits[i])
                && lamport_of(edits[i].timestamp) != lamport_of(edits[j].timestamp),
    ensures
        fits_in(cells, edits[j]),
        edits_placed(edit_done(cells, log, edits[j]), log, edits.remove(j)),
        edits_done(edit_done(cells, log, edits[j]), log, edits.remove(j)) == edits_done(
            cells,
            log,
            edits,
        ),
    decreases j,
{
    if j == 0 {
        assert(edits.remove(0) =~= edits.skip(1));
    } else {
        let first = edits[0];
        let moved = edits[j];
        let d = edit_done(cells, log, first);
        let rest = edits.skip(1);
        assert forall|i: int| 0 <= i < j - 1 implies unaware(#[trigger] rest[i], rest[j - 1])
            && unaware(rest[j - 1], rest[i]) && lamport_of(rest[i].timestamp) != lamport_of(
            rest[j - 1].timestamp,
        ) by {
            assert(unaware(edits[i + 1], edits[j]));
        }
        assert(rest[j - 1] == moved);
        lemma_bring_front(d, log, rest, j - 1);
        assert(unaware(edits[0], edits[j]));
        lemma_swap(cells, log, first, moved);
        let after = edits.remove(j);
        assert(after[0] == first);
        assert(after.skip(1) =~= rest.remove(j - 1));
    }
}

/// The same edits, made to the same document, give the same document, whatever
/// the order in which they come, as long as each comes after those that it
/// knows of.
pub proof fn law_edits_converge(
    cells: Seq<Cell>,
    log: UndoLog,
    first: Seq<EditModel>,
    second: Seq<EditModel>,
)
    requires
        edits_placed(cells, log, first),
        in_causal_order(first),
        in_causal_order(second),
        at_different_times(first),
        at_different_times(second),
        forall|e: EditModel| #[trigger] first.contains(e) <==> second.contains(e),
    ensures
        edits_placed(cells, log, second),
        edits_done(cells, log, first) == edits_done(cells, log, second),
    decreases second.len(),
{
    if second.len() == 0 {
        if first.len() > 0 {
            assert(first.contains(first[0]));
        }
    } else {
        let x = second[0];
        assert(second.contains(x));
        assert(first.contains(x));
        let j = first.index_of(x);
        assert(first[j] == x);
        assert forall|i: int| 0 <= i < j implies unaware(#[trigger] first[i], first[j]) && unaware(
            first[j],
            first[i],
        ) && lamport_of(first[i].timestamp) != lamport_of(first[j].timestamp) by {
            assert(first.contains(first[i]));
            let k = second.index_of(first[i]);
            assert(second[k] == first[i]);
            assert(unaware(second[0], second[k]));
        }
        lemma_bring_front(cells, log, first, j);
        let a = first.remove(j);
        let b = second.skip(1);
        let d = edit_done(cells, log, x);
        assert forall|p: int, q: int| 0 <= p < q < a.len() implies unaware(
            #[trigger] a[p],
            #[trigger] a[q],
        ) && lamport_of(a[p].timestamp) != lamport_of(a[q].timestamp) by {
            let p0 = if p < j {
                p
            } else {
                p + 1
            };
            let q0 = if q < j {
                q
            } else {
                q + 1
            };
            assert(a[p] == first[p0]);
            assert(a[q] == first[q0]);
        }
        assert forall|p: int, q: int| 0 <= p < q < b.len() implies unaware(
            #[trigger] b[p],
            #[trigger] b[q],
        ) && lamport_of(b[p].timestamp) != lamport_of(b[q].timestamp) by {
            assert(b[p] == second[p + 1]);
            assert(b[q] == second[q + 1]);
        }
        assert forall|e: EditModel| #[trigger] a.contains(e) <==> b.contains(e) by {
            if a.contains(e) {
                let p = a.index_of(e);
                let p0 = if p < j {
                    p
                } else {
                    p + 1
                };
                assert(first[p0] == e);
                assert(first.contains(e));
                let q = second.index_of(e);
                assert(second[q] == e);
                if q == 0 {
                    if p0 < j {
                        assert(lamport_of(first[p0].timestamp) != lamport_of(first[j].timestamp));
                    } else {
                        assert(lamport_of(first[j].timestamp) != lamport_of(first[p0].timestamp));
                    }
                }
                assert(b[q - 1] == e);
            }
            if b.contains(e) {
                let q = b.index_of(e);
                assert(second[q + 1] == e);
                assert(second.contains(e));
                assert(first.contains(e));
                let p = first.index_of(e);
                assert(first[p] == e);
                if p == j {
                    assert(lamport_of(second[0].timestamp) != lamport_of(second[q + 1].timestamp));
                }
                if p < j {
                    assert(a[p] == e);
                } else {
                    assert(a[p - 1] == e);
                }
            }
        }
        law_edits_converge(d, log, a, b);
    }
}

/// Two edits that were made without knowing of each other leave a buffer with the
/// same text in whichever order they are applied to it, overlapping deletions and
/// insertions at one place included.
pub proof fn law_buffers_commute(s: State, a: EditModel, b: EditModel)
    requires
        fits_in(s.cells, a),
        fits_in(s.cells, b),
        unaware(a, b),
        unaware(b, a),
        lamport_of(a.timestamp) != lamport_of(b.timestamp),
    ensures
        ({
            let one = remote_edit_applied(remote_edit_applied(s, a), b);
            let two = remote_edit_applied(remote_edit_applied(s, b), a);
            &&& one.cells == two.cells
            &&& one.text() == two.text()
            &&& fits_in(remote_edit_applied(s, a).cells, b)
            &&& fits_in(remote_edit_applied(s, b).cells, a)
        }),
{
    let x = remote_edit_applied(s, a);
    let y = remote_edit_applied(s, b);
    lemma_remote_cells(s, a);
    lemma_remote_cells(s, b);
    if a.ranges.len() == 0 {
        lemma_no_ranges(s.cells, s.log, a);
        lemma_no_ranges(y.cells, s.log, a);
    } else if b.ranges.len() == 0 {
        lemma_no_ranges(s.cells, s.log, b);
        lemma_no_ranges(x.cells, s.log, b);
    } else {
        law_concurrent_edits_commute(s.cells, s.log, a, b);
    }
    lemma_remote_cells(x, b);
    lemma_remote_cells(y, a);
}

proof fn lemma_remote_cells(s: State, e: EditModel)
    requires
        fits_in(s.cells, e),
    ensures
        remote_edit_applied(s, e).cells == edit_done(s.cells, s.log, e),
        remote_edit_applied(s, e).log == s.log,
{
    if e.ranges.len() == 0 {
        lemma_no_ranges(s.cells, s.log, e);
    } else {
        lemma_plain_plan(s.cells, s.log, e.version, lamport_of(e.timestamp), e.ranges);
    }
}

/// A buffer after it has received some edits of other replicas, one after the
/// other.
pub open spec fn received(s: State, edits: Seq<EditModel>) -> State
    decreases edits.len(),
{
    if edits.len() == 0 {
        s
    } else {
        received(applied(s, OperationModel::Edit(edits[0])), edits.skip(1))
    }
}

/// Each edit can be applied when it comes, fits, names places of the text, and is
/// new.
pub open spec fn accepts(s: State, edits: Seq<EditModel>) -> bool
    decreases edits.len(),
{
    edits.len() > 0 ==> {
        let op = OperationModel::Edit(edits[0]);
        &&& can_apply(s, op)
        &&& op_fits(s, op)
        &&& fits_in(s.cells, edits[0])
        &&& !observes(s.version, local_of(edits[0].timestamp))
        &&& accepts(applied(s, op), edits.skip(1))
    }
}

/// An edit without ranges does nothing to the text.
pub proof fn lemma_no_ranges(cells: Seq<Cell>, log: UndoLog, e: EditModel)
    requires
        e.ranges.len() == 0,
    ensures
        edit_done(cells, log, e) == cells,
{
    let plan = plan_of(cells, log, e);
    let m = touched(cells, plan, local_of(e.timestamp));
    assert forall|i: int| 0 <= i < cells.len() implies m[i] == cells[i] by {
        assert(!plan.hits.contains(i));
        assert(!plan.cut(i));
    }
    assert(m =~= cells);
    assert(cells.subrange(0, cells.len() as int) =~= cells);
}

/// What an edit does to a buffer that has not seen it.
pub proof fn lemma_applied_edit(s: State, e: EditModel)
    requires
        !observes(s.version, local_of(e.timestamp)),
        fits_in(s.cells, e),
    ensures
        ({
            let after = applied(s, OperationModel::Edit(e));
            &&& after.cells == edit_done(s.cells, s.log, e)
            &&& after.log == s.log
            &&& after.version == observing(s.version, local_of(e.timestamp))
        }),
{
    lemma_remote_cells(s, e);
}

/// What a version has seen after some edits.
pub open spec fn seen_after(v: Version, edits: Seq<EditModel>, t: Local) -> bool {
    observes(v, t) || exists|i: int|
        0 <= i < edits.len() && local_of((#[trigger] edits[i]).timestamp).replica_id
            == t.replica_id && local_of(edits[i].timestamp).value >= t.value
}

/// What receiving edits does to the version and the text of a buffer.
pub proof fn lemma_received(s: State, edits: Seq<EditModel>)
    requires
        accepts(s, edits),
    ensures
        edits_placed(s.cells, s.log, edits),
        received(s, edits).cells == edits_done(s.cells, s.log, edits),
        forall|t: Local| #[trigger]
            observes(received(s, edits).version, t) == seen_after(s.version, edits, t),
        in_causal_order(edits),
        forall|i: int|
            0 <= i < edits.len() ==> !observes(s.version, local_of(
                (#[trigger] edits[i]).timestamp,
            )),
    decreases edits.len(),
{
    if edits.len() > 0 {
        let e = edits[0];
        let rest = edits.skip(1);
        let after = applied(s, OperationModel::Edit(e));
        lemma_applied_edit(s, e);
        lemma_received(after, rest);
        assert forall|t: Local| #[trigger] observes(received(s, edits).version, t) == seen_after(
            s.version,
            edits,
            t,
        ) by {
            lemma_seen_after(s.version, edits, t);
        }
        assert forall|i: int, j: int| 0 <= i < j < edits.len() implies unaware(
            #[trigger] edits[i],
            #[trigger] edits[j],
        ) by {
            assert(edits[j] == rest[j - 1]);
            if i > 0 {
                assert(edits[i] == rest[i - 1]);
            } else {
                let t = local_of(rest[j - 1].timestamp);
                assert(!observes(after.version, t));
                assert(seen_of(s.version, t.replica_id) >= seen_of(e.version, t.replica_id));
            }
        }
        assert forall|i: int| 0 <= i < edits.len() implies !observes(
            s.version,
            local_of((#[trigger] edits[i]).timestamp),
        ) by {
            if i > 0 {
                assert(edits[i] == rest[i - 1]);
                assert(!observes(after.version, local_of(rest[i - 1].timestamp)));
            }
        }
    }
}

proof fn lemma_seen_after(v: Version, edits: Seq<EditModel>, t: Local)
    requires
        edits.len() > 0,
    ensures
        seen_after(observing(v, local_of(edits[0].timestamp)), edits.skip(1), t) == seen_after(
            v,
            edits,
            t,
        ),
{
    let w = observing(v, local_of(edits[0].timestamp));
    let rest = edits.skip(1);
    if seen_after(w, rest, t) {
        if !observes(v, t) && !observes(w, t) {
            let i = choose|i: int|
                0 <= i < rest.len() && local_of((#[trigger] rest[i]).timestamp).replica_id
                    == t.replica_id && local_of(rest[i].timestamp).value >= t.value;
            assert(edits[i + 1] == rest[i]);
        } else if !observes(v, t) {
            assert(local_of(edits[0].timestamp).replica_id == t.replica_id);
        }
    }
    if seen_after(v, edits, t) && !observes(w, t) {
        let i = choose|i: int|
            0 <= i < edits.len() && local_of((#[trigger] edits[i]).timestamp).replica_id
                == t.replica_id && local_of(edits[i].timestamp).value >= t.value;
        assert(i > 0);
        assert(rest[i - 1] == edits[i]);
    }
}

/// Two replicas that started from the same state, and have received the same
/// edits in whatever orders they could be applied in, hold the same text and
/// have seen the same operations.
pub proof fn law_replicas_converge(s: State, first: Seq<EditModel>, second: Seq<EditModel>)
    requires
        accepts(s, first),
        accepts(s, second),
        at_different_times(first),
        at_different_times(second),
        forall|e: EditModel| #[trigger] first.contains(e) <==> second.contains(e),
    ensures
        received(s, first).cells == received(s, second).cells,
        received(s, first).text() == received(s, second).text(),
        same_version(received(s, first).version, received(s, second).version),
{
    lemma_received(s, first);
    lemma_received(s, second);
    law_edits_converge(s.cells, s.log, first, second);
    let a = received(s, first).version;
    let b = received(s, second).version;
    assert forall|t: Local| observes(a, t) == observes(b, t) by {
        lemma_same_seen(s.version, first, second, t);
        lemma_same_seen(s.version, second, first, t);
    }
    assert forall|r: ReplicaId| seen_of(a, r) >= #[trigger] seen_of(b, r) by {
        assert(observes(b, Local { replica_id: r, value: seen_of(b, r) }));
        assert(observes(a, Local { replica_id: r, value: seen_of(b, r) }));
    }
    assert forall|r: ReplicaId| seen_of(b, r) >= #[trigger] seen_of(a, r) by {
        assert(observes(a, Local { replica_id: r, value: seen_of(a, r) }));
        assert(observes(b, Local { replica_id: r, value: seen_of(a, r) }));
    }
}

proof fn lemma_same_seen(v: Version, first: Seq<EditModel>, second: Seq<EditModel>, t: Local)
    requires
        forall|e: EditModel| #[trigger] first.contains(e) ==> second.contains(e),
    ensures
        seen_after(v, first, t) ==> seen_after(v, second, t),
{
    if seen_after(v, first, t) && !observes(v, t) {
        let i = choose|i: int|
            0 <= i < first.len() && local_of((#[trigger] first[i]).timestamp).replica_id
                == t.replica_id && local_of(first[i].timestamp).value >= t.value;
        assert(first.contains(first[i]));
        let k = second.index_of(first[i]);
        assert(second[k] == first[i]);
    }
}

/// An edit or an undo that a replica has seen before changes nothing.
pub proof fn law_seen_operations_change_nothing(s: State, op: OperationModel)
    requires
        match op {
            OperationModel::Edit(edit) => observes(s.version, local_of(edit.timestamp)),
            OperationModel::Undo { undo, lamport } => observes(s.version, undo.id),
            _ => false,
        },
    ensures
        op_fits(s, op),
        applied(s, op) == s,
{
}

/// A replica has seen the edits and undos that it has applied, and what it had
/// seen before.
pub proof fn law_applied_operations_are_seen(s: State, op: OperationModel)
    ensures
        op matches OperationModel::Edit(edit) ==> observes(
            applied(s, op).version,
            local_of(edit.timestamp),
        ),
        op matches OperationModel::Undo { undo, lamport } ==> observes(
            applied(s, op).version,
            undo.id,
        ),
        includes(applied(s, op).version, s.version),
{
}

} // verus!
