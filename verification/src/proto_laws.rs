//! A buffer that travels as a message is the same on the other side.

use vstd::prelude::*;

use crate::acceptance_laws::{Left, has_time, law_batches_are_accepted, leaves};
use crate::batch_laws::{
    after_batches, all_new, all_ops, batches_fit, complete, heart, in_own_order, later_than,
    later_than_seen, lemma_all_done, lemma_knew, lemma_stamps_stay, lemma_taken_apart, lemma_timed,
    lemma_took_one, made_first, may_come_first, own, reopened, timed, told_of, version_of,
};
use crate::buffer_proto::{history_says, lists_edits, received};
use crate::clock::{Local, ReplicaId, after, includes, observes, observing, same_version};
use crate::converge::edit_done;
use crate::document::Doc;
use crate::file::FileModel;
use crate::fit_laws::{edits_fit, uniform};
use crate::fragment::{lamport_of, local_of};
use crate::local::{lemma_local_plan, lemma_local_range};
use crate::operation::{EditModel, OperationModel, bytes_of, lamport_timestamp_of};
use crate::proto;
use crate::proto::{can_say, edit_meant, edit_says, edits_meant};
use crate::reach_laws::{law_operations_keep_settled, undos_reach};
use crate::replica_laws::{
    bare, edits_in, law_edits_travel, law_own_edit_lands, lemma_edits_in, lemma_same_seen,
    lemma_same_shown, lemma_took, logs_agree, name_of, named, takes, took, undid, undoes,
};
use crate::replicas::{
    at_different_times, edits_done, fits_in, law_edits_converge, lemma_applied_edit,
};
use crate::state::{
    State, applied, edit_fits, edit_operation, edited_within, first_run, ops_applied, ops_fail,
    reparsing, run_ops, run_queued,
};
use crate::syntax::Language;
use crate::undo_laws::{can_edit, settled};
use crate::undo_map::undos_of;

verus! {

/// All of the operations are edits.
pub open spec fn only_edits(ops: Seq<OperationModel>) -> bool {
    forall|i: int| 0 <= i < ops.len() ==> (#[trigger] ops[i]) is Edit
}

/// Of two edits of one replica, the one made later knows of the other.
pub open spec fn know_own(ops: Seq<OperationModel>) -> bool {
    forall|i: int, j: int|
        0 <= i < ops.len() && 0 <= j < ops.len() && i != j ==> may_come_first(
            #[trigger] ops[i],
            #[trigger] ops[j],
        )
}

/// A buffer that began with the text of `start` and has been edited since: each
/// of the edits, in the order given, could be applied and is filed.
pub open spec fn grown(start: State, b: State, ops: Seq<OperationModel>) -> bool {
    &&& takes(heart(start), ops)
    &&& only_edits(ops)
    &&& know_own(ops)
    &&& complete(start, ops)
    &&& timed(start, ops)
    &&& b.cells == took(heart(start), ops).cells
    &&& b.log == start.log
    &&& b.version == took(heart(start), ops).version
    &&& forall|e: EditModel| #[trigger]
        ops.contains(OperationModel::Edit(e)) <==> b.history.ops.contains_key(
            local_of(e.timestamp),
        ) && b.history.ops[local_of(e.timestamp)] == e
    &&& forall|id: Local| #[trigger]
        b.history.ops.contains_key(id) ==> local_of(b.history.ops[id].timestamp) == id && can_say(
            OperationModel::Edit(b.history.ops[id]),
        )
}

/// A buffer to which nothing has been done has grown from itself.
pub proof fn law_new_buffer_is_grown(start: State)
    requires
        start.history.ops == Map::<Local, EditModel>::empty(),
    ensures
        grown(start, start, Seq::empty()),
{
}

/// What is taken leaves nothing waiting.
proof fn lemma_took_at_rest(s: State, ops: Seq<OperationModel>)
    requires
        takes(s, ops),
    ensures
        took(s, ops).deferred_replicas == s.deferred_replicas,
    decreases ops.len(),
{
    if ops.len() > 0 {
        lemma_took_at_rest(applied(s, ops[0]), ops.skip(1));
    }
}

/// What an edit has to know of the edits before it.
pub open spec fn knows(start: State, ops: Seq<OperationModel>, edit: EditModel) -> bool {
    let op = OperationModel::Edit(edit);
    &&& forall|i: int|
        0 <= i < ops.len() ==> may_come_first(#[trigger] ops[i], op) && may_come_first(op, ops[i])
    &&& forall|u: Local|
        observes(edit.version, u) ==> observes(start.version, u) || #[trigger] told_of(ops, op, u)
    &&& later_than_seen(start.cells, edit)
    &&& forall|f: EditModel| #[trigger]
        ops.contains(OperationModel::Edit(f)) ==> later_than(edit, f)
}

/// One more edit was made no earlier than what it knows of, and names places of
/// the text.
proof fn lemma_timed_more(start: State, b: State, ops: Seq<OperationModel>, edit: EditModel)
    requires
        grown(start, b, ops),
        !observes(b.version, local_of(edit.timestamp)),
        edit_fits(b, edit),
        took(heart(start), ops).lamport_clock.value < u32::MAX,
        knows(start, ops, edit),
    ensures
        timed(start, ops.push(OperationModel::Edit(edit))),
        edit_fits(took(heart(start), ops), edit),
        fits_in(b.cells, edit),
{
    let op = OperationModel::Edit(edit);
    let all = ops.push(op);
    let x = heart(start);
    lemma_edits_only_log(x, ops);
    assert(all[ops.len() as int] == op);
    assert forall|o: OperationModel| #[trigger] all.contains(o) implies ops.contains(o) || o
        == op by {
        let k = all.index_of(o);
        if k < ops.len() {
            assert(ops[k] == o);
        }
    }
    assert forall|o: OperationModel| #[trigger] ops.contains(o) implies all.contains(o) by {
        let k = ops.index_of(o);
        assert(all[k] == o);
    }
    assert forall|e: EditModel, f: EditModel| #[trigger]
        all.contains(OperationModel::Edit(e)) && #[trigger] all.contains(
            OperationModel::Edit(f),
        ) implies later_than(e, f) by {
        if e != edit && f == edit && observes(e.version, local_of(edit.timestamp)) {
            let k = ops.index_of(OperationModel::Edit(e));
            lemma_knew(x, ops, k, local_of(edit.timestamp));
        }
    }
    assert(timed(start, all));
    assert(timed(x, all));
    lemma_timed(x, ops, all, edit);
}

/// A buffer that has been edited, and is edited once more.
proof fn lemma_grown_more(
    start: State,
    b: State,
    now: State,
    ops: Seq<OperationModel>,
    edit: EditModel,
)
    requires
        grown(start, b, ops),
        !observes(b.version, local_of(edit.timestamp)),
        includes(b.version, edit.version),
        edit_fits(b, edit),
        took(heart(start), ops).lamport_clock.value < u32::MAX,
        now.cells == edit_done(b.cells, b.log, edit),
        now.log == b.log,
        now.version == observing(b.version, local_of(edit.timestamp)),
        now.history.ops == b.history.ops.insert(local_of(edit.timestamp), edit),
        knows(start, ops, edit),
        can_say(OperationModel::Edit(edit)),
    ensures
        grown(start, now, ops.push(OperationModel::Edit(edit))),
{
    let op = OperationModel::Edit(edit);
    let all = ops.push(op);
    let x = heart(start);
    let t = took(x, ops);
    let n = ops.len() as int;
    lemma_edits_only_log(x, ops);
    lemma_took_at_rest(x, ops);
    lemma_took(x, ops);
    lemma_timed_more(start, b, ops, edit);
    lemma_took_one(x, ops, op);
    lemma_applied_edit(t, edit);
    assert forall|i: int| 0 <= i < all.len() implies (#[trigger] all[i]) is Edit by {
        if i < n {
            assert(ops[i] is Edit);
        }
    }
    assert forall|i: int, j: int|
        0 <= i < all.len() && 0 <= j < all.len() && i != j implies may_come_first(
        #[trigger] all[i],
        #[trigger] all[j],
    ) by {
        if i < n && j < n {
            assert(may_come_first(ops[i], ops[j]));
        } else if i < n {
            assert(may_come_first(ops[i], op));
        } else {
            assert(may_come_first(ops[j], op) && may_come_first(op, ops[j]));
        }
    }
    assert forall|i: int, u: Local|
        0 <= i < all.len() && observes(version_of(#[trigger] all[i]), u) implies observes(
        start.version,
        u,
    ) || #[trigger] told_of(all, all[i], u) by {
        let from = all[i];
        if i < n {
            assert(from == ops[i]);
            assert(observes(start.version, u) || told_of(ops, ops[i], u));
        } else {
            assert(observes(start.version, u) || told_of(ops, op, u));
        }
        if told_of(ops, from, u) {
            let k = choose|k: int|
                0 <= k < ops.len() && (#[trigger] name_of(ops[k])).replica_id == u.replica_id
                    && name_of(ops[k]).value >= u.value && after(
                    lamport_timestamp_of(from),
                    lamport_timestamp_of(ops[k]),
                );
            assert(name_of(all[k]).replica_id == u.replica_id);
        }
    }
    // The edit is on file.
    let id = local_of(edit.timestamp);
    assert forall|e: EditModel| #[trigger]
        all.contains(OperationModel::Edit(e)) <==> now.history.ops.contains_key(
            local_of(e.timestamp),
        ) && now.history.ops[local_of(e.timestamp)] == e by {
        let other = OperationModel::Edit(e);
        if all.contains(other) {
            let k = all.index_of(other);
            if k < n {
                assert(ops[k] == other);
                assert(ops.contains(other));
                let name = name_of(ops[k]);
                assert(name_of(ops[k]).replica_id == name.replica_id);
                assert(named(ops, name));
                assert(observes(t.version, name));
            }
        }
        if ops.contains(other) {
            let k = ops.index_of(other);
            assert(all[k] == other);
        }
        assert(all[n] == op);
    }
}

/// A buffer that has been edited stays so when it receives an edit of another
/// replica that knows of those that this one made before.
pub proof fn law_receiving_keeps_grown(
    start: State,
    b: State,
    ops: Seq<OperationModel>,
    edit: EditModel,
)
    requires
        grown(start, b, ops),
        !observes(b.version, local_of(edit.timestamp)),
        includes(b.version, edit.version),
        edit_fits(b, edit),
        took(heart(start), ops).lamport_clock.value < u32::MAX,
        knows(start, ops, edit),
        can_say(OperationModel::Edit(edit)),
    ensures
        grown(
            start,
            applied(b, OperationModel::Edit(edit)),
            ops.push(OperationModel::Edit(edit)),
        ),
{
    lemma_timed_more(start, b, ops, edit);
    lemma_applied_edit(b, edit);
    lemma_grown_more(start, b, applied(b, OperationModel::Edit(edit)), ops, edit);
}

/// A buffer that has been edited stays so when its visible text is edited.
pub proof fn law_edit_keeps_grown(
    d: Doc,
    start: State,
    b: State,
    ops: Seq<OperationModel>,
    ranges: Seq<(int, int)>,
    text: Seq<char>,
)
    requires
        d.wf(),
        d.cells() == b.cells,
        grown(start, b, ops),
        settled(b.cells, b.log, b.version),
        can_edit(b, ranges, text),
        b.lamport_clock.replica_id == b.replica_id,
        b.lamport_clock.value < u32::MAX,
        took(heart(start), ops).lamport_clock.value < u32::MAX,
        forall|i: int|
            0 <= i < b.cells.len() ==> !after(
                lamport_of((#[trigger] b.cells[i]).timestamp),
                b.lamport_clock,
            ),
        forall|i: int|
            0 <= i < ops.len() ==> after(b.lamport_clock, lamport_timestamp_of(#[trigger] ops[i])),
    ensures
        grown(
            start,
            edited_within(b, ranges, text),
            ops.push(OperationModel::Edit(edit_operation(b, ranges, text))),
        ),
{
    let edit = edit_operation(b, ranges, text);
    let op = OperationModel::Edit(edit);
    let x = heart(start);
    let t = took(x, ops);
    law_edits_travel(d, b, ranges, text);
    law_own_edit_lands(b, ranges, text);
    lemma_took(x, ops);
    lemma_applied_edit(b, edit);
    // The edit knows of all the others.
    assert forall|i: int| 0 <= i < ops.len() implies may_come_first(#[trigger] ops[i], op)
        && may_come_first(op, ops[i]) by {
        let name = name_of(ops[i]);
        assert(name_of(ops[i]).replica_id == name.replica_id);
        assert(named(ops, name));
        assert(observes(t.version, name));
        assert(after(b.lamport_clock, lamport_timestamp_of(ops[i])));
        assert(made_first(ops[i], op));
    }
    assert forall|u: Local| observes(edit.version, u) implies observes(start.version, u)
        || #[trigger] told_of(ops, op, u) by {
        if !observes(start.version, u) {
            assert(named(ops, u));
            let k = choose|k: int|
                0 <= k < ops.len() && (#[trigger] name_of(ops[k])).replica_id == u.replica_id
                    && name_of(ops[k]).value >= u.value;
            assert(after(b.lamport_clock, lamport_timestamp_of(ops[k])));
        }
    }
    // It was made after all that is there.
    assert forall|j: int| 0 <= j < start.cells.len() implies !after(
        lamport_of((#[trigger] start.cells[j]).timestamp),
        b.lamport_clock,
    ) by {
        let i = lemma_stamps_stay(x, ops, j);
        assert(!after(lamport_of(b.cells[i].timestamp), b.lamport_clock));
    }
    assert forall|f: EditModel| #[trigger] ops.contains(OperationModel::Edit(f)) implies later_than(
        edit,
        f,
    ) by {
        let k = ops.index_of(OperationModel::Edit(f));
        assert(after(b.lamport_clock, lamport_timestamp_of(ops[k])));
    }
    lemma_local_plan(b.cells, ranges, bytes_of(edit.new_text));
    assert forall|k: int| 0 <= k < edit.ranges.len() implies 0 <= (#[trigger] edit.ranges[k]).0
        <= usize::MAX && 0 <= edit.ranges[k].1 <= usize::MAX by {
        lemma_local_range(b.cells, ranges, bytes_of(edit.new_text), k);
    }
    lemma_grown_more(start, b, edited_within(b, ranges, text), ops, edit);
}

/// A buffer that has taken edits shows what its record says.
proof fn lemma_edits_settle(s: State, ops: Seq<OperationModel>)
    requires
        settled(s.cells, s.log, s.version),
        takes(s, ops),
        only_edits(ops),
    ensures
        settled(took(s, ops).cells, took(s, ops).log, took(s, ops).version),
        logs_agree(took(s, ops).log, s.log),
{
    lemma_no_undos(s, ops);
    law_operations_keep_settled(s, ops);
    lemma_took(s, ops);
    assert forall|id: Local, entry: (Local, u32)| #[trigger]
        undos_of(took(s, ops).log, id).contains(entry) <==> undos_of(s.log, id).contains(
            entry,
        ) by {
        if undid(ops, id, entry) {
            let i = choose|i: int| 0 <= i < ops.len() && #[trigger] undoes(
                ops[i],
                id,
                entry,
            );
            assert(ops[i] is Edit);
        }
    }
}

proof fn lemma_no_undos(s: State, ops: Seq<OperationModel>)
    requires
        only_edits(ops),
    ensures
        undos_reach(s, ops),
    decreases ops.len(),
{
    if ops.len() > 0 {
        let rest = ops.skip(1);
        assert forall|i: int| 0 <= i < rest.len() implies (#[trigger] rest[i]) is Edit by {
            assert(rest[i] == ops[i + 1]);
        }
        assert(ops[0] is Edit);
        lemma_no_undos(applied(s, ops[0]), rest);
    }
}

/// What the messages of the filed edits mean is those edits.
proof fn lemma_history_meant(
    start: State,
    b: State,
    ops: Seq<OperationModel>,
    messages: Seq<proto::Edit>,
)
    requires
        grown(start, b, ops),
        history_says(messages, b.history.ops),
    ensures
        forall|op: OperationModel| #[trigger]
            edits_meant(messages).contains(op) <==> ops.contains(op),
        only_edits(edits_meant(messages)),
        forall|i: int, j: int|
            0 <= i < j < messages.len() ==> #[trigger] edits_meant(messages)[i]
                != #[trigger] edits_meant(messages)[j],
{
    let filed = b.history.ops;
    let mine = edits_meant(messages);
    let ids = choose|ids: Seq<Local>| #[trigger] lists_edits(ids, messages, filed);
    assert forall|i: int| 0 <= i < messages.len() implies #[trigger] mine[i]
        == OperationModel::Edit(filed[ids[i]]) && filed.contains_key(ids[i]) by {
        let e = filed[ids[i]];
        assert(ids.contains(ids[i]));
        assert(edit_says(messages[i], e));
        let m = proto::Operation { variant: Some(proto::Variant::Edit(messages[i])) };
        proto::law_message_round_trip(m, OperationModel::Edit(e));
        assert(edit_meant(messages[i]) == e);
    }
    assert forall|op: OperationModel| #[trigger] mine.contains(op) <==> ops.contains(op) by {
        if mine.contains(op) {
            let i = mine.index_of(op);
            assert(mine[i] == OperationModel::Edit(filed[ids[i]]));
            assert(ops.contains(OperationModel::Edit(filed[ids[i]])));
        }
        if ops.contains(op) {
            let k = ops.index_of(op);
            assert(ops[k] is Edit);
            let e = op->Edit_0;
            assert(ops.contains(OperationModel::Edit(e)));
            let id = local_of(e.timestamp);
            assert(filed.contains_key(id));
            assert(ids.contains(id));
            let i = ids.index_of(id);
            assert(mine[i] == OperationModel::Edit(filed[ids[i]]));
        }
    }
    assert forall|i: int, j: int| 0 <= i < j < messages.len() implies #[trigger] mine[i]
        != #[trigger] mine[j] by {
        assert(ids[i] != ids[j]);
        assert(mine[i] == OperationModel::Edit(filed[ids[i]]) && filed.contains_key(ids[i]));
        assert(mine[j] == OperationModel::Edit(filed[ids[j]]) && filed.contains_key(ids[j]));
        assert(local_of(filed[ids[i]].timestamp) == ids[i]);
        assert(local_of(filed[ids[j]].timestamp) == ids[j]);
    }
}

/// What holds of operations in one order holds of them in another.
proof fn lemma_another_order(
    start: State,
    s: State,
    ops: Seq<OperationModel>,
    mine: Seq<OperationModel>,
)
    requires
        know_own(ops),
        only_edits(ops),
        takes(heart(start), ops),
        complete(start, ops),
        s.version == start.version,
        forall|op: OperationModel| #[trigger] mine.contains(op) <==> ops.contains(op),
        forall|i: int, j: int| 0 <= i < j < mine.len() ==> #[trigger] mine[i] != #[trigger] mine[j],
    ensures
        in_own_order(mine),
        all_new(s, mine),
        complete(s, mine),
{
    lemma_took(heart(start), ops);
    assert forall|i: int| 0 <= i < mine.len() implies ops.contains(#[trigger] mine[i]) by {
        assert(mine.contains(mine[i]));
    }
    assert forall|i: int| 0 <= i < mine.len() implies own(#[trigger] mine[i]) && !observes(
        s.version,
        name_of(mine[i]),
    ) by {
        let k = ops.index_of(mine[i]);
        assert(ops[k] is Edit);
        assert(!observes(start.version, name_of(ops[k])));
    }
    assert forall|i: int, j: int| 0 <= i < j < mine.len() implies may_come_first(
        #[trigger] mine[i],
        #[trigger] mine[j],
    ) by {
        let k = ops.index_of(mine[i]);
        let l = ops.index_of(mine[j]);
        assert(mine[i] != mine[j]);
        assert(may_come_first(ops[k], ops[l]));
    }
    assert forall|i: int, t: Local|
        0 <= i < mine.len() && observes(version_of(#[trigger] mine[i]), t) implies observes(
        s.version,
        t,
    ) || #[trigger] told_of(mine, mine[i], t) by {
        let k = ops.index_of(mine[i]);
        assert(ops[k] == mine[i]);
        assert(observes(start.version, t) || told_of(ops, ops[k], t));
        if told_of(ops, ops[k], t) {
            let l = choose|l: int|
                0 <= l < ops.len() && (#[trigger] name_of(ops[l])).replica_id == t.replica_id
                    && name_of(ops[l]).value >= t.value && after(
                    lamport_timestamp_of(ops[k]),
                    lamport_timestamp_of(ops[l]),
                );
            assert(ops.contains(ops[l]));
            assert(mine.contains(ops[l]));
            let m = mine.index_of(ops[l]);
            assert(name_of(mine[m]).replica_id == t.replica_id);
        }
    }
}

/// The edits among operations that are all edits.
proof fn lemma_all_edits(ops: Seq<OperationModel>)
    requires
        only_edits(ops),
    ensures
        edits_in(ops).len() == ops.len(),
        forall|i: int|
            0 <= i < ops.len() ==> OperationModel::Edit(#[trigger] edits_in(ops)[i]) == ops[i],
    decreases ops.len(),
{
    if ops.len() > 0 {
        let rest = ops.skip(1);
        let all = edits_in(ops);
        let others = edits_in(rest);
        assert(ops[0] is Edit);
        assert forall|i: int| 0 <= i < rest.len() implies (#[trigger] rest[i]) is Edit by {
            assert(rest[i] == ops[i + 1]);
        }
        lemma_all_edits(rest);
        assert forall|i: int| 0 <= i < ops.len() implies OperationModel::Edit(#[trigger] all[i])
            == ops[i] by {
            if i > 0 {
                assert(all[i] == others[i - 1]);
                assert(OperationModel::Edit(others[i - 1]) == rest[i - 1]);
            }
        }
    }
}

/// Edits that a buffer takes fit one after the other.
proof fn lemma_taken_fit(s: State, ops: Seq<OperationModel>)
    requires
        takes(s, ops),
        only_edits(ops),
    ensures
        edits_fit(s.cells, s.log, edits_in(ops)),
    decreases ops.len(),
{
    if ops.len() > 0 {
        let rest = ops.skip(1);
        assert(ops[0] is Edit);
        let e = ops[0]->Edit_0;
        assert forall|i: int| 0 <= i < rest.len() implies (#[trigger] rest[i]) is Edit by {
            assert(rest[i] == ops[i + 1]);
        }
        lemma_applied_edit(s, e);
        lemma_taken_fit(applied(s, ops[0]), rest);
        assert(edits_in(ops)[0] == e);
        assert(edits_in(ops).skip(1) =~= edits_in(rest));
    }
}

/// There are times left for all of the edits.
pub open spec fn times_left(ops: Seq<OperationModel>) -> bool {
    &&& ops.len() + 1 < u32::MAX
    &&& forall|i: int|
        0 <= i < ops.len() ==> lamport_timestamp_of(#[trigger] ops[i]).value + ops.len() < u32::MAX
            && name_of(ops[i]).value < u32::MAX
}

/// The edits of a buffer can be applied to the text that it began with.
proof fn lemma_leaves(start: State, s: State, b: State, ops: Seq<OperationModel>)
    requires
        grown(start, b, ops),
        s.cells == start.cells,
        s.log == start.log,
        s.version == start.version,
        uniform(s.cells),
        s.lamport_clock.value == 1,
        b.cells.len() < usize::MAX,
        times_left(ops),
    ensures
        leaves(s, Left { edits: edits_in(ops), undos: Set::empty() }),
{
    let left = edits_in(ops);
    lemma_all_edits(ops);
    lemma_taken_fit(heart(start), ops);
    lemma_took(heart(start), ops);
    lemma_ops_apart(start, ops);
    lemma_edits_only_log(heart(start), ops);
    assert(bare(took(heart(start), ops).cells).len() == b.cells.len());
    assert(bare(edits_done(s.cells, s.log, left)).len() == edits_done(s.cells, s.log, left).len());
    assert forall|i: int| 0 <= i < left.len() implies (#[trigger] left[i]).timestamp.lamport
        + left.len() < u32::MAX && left[i].timestamp.local < u32::MAX && !observes(
        s.version,
        local_of(left[i].timestamp),
    ) by {
        assert(OperationModel::Edit(left[i]) == ops[i]);
        assert(lamport_timestamp_of(ops[i]).value + ops.len() < u32::MAX);
    }
    let coming = Left { edits: left, undos: Set::empty() };
    assert forall|op: OperationModel| #[trigger] coming.holds(op) implies has_time(
        op,
        coming.size(),
    ) && !observes(s.version, name_of(op)) by {
        let i = left.index_of(op->Edit_0);
        assert(OperationModel::Edit(left[i]) == ops[i]);
        assert(lamport_timestamp_of(ops[i]).value + ops.len() < u32::MAX);
    }
    assert forall|a: OperationModel, b: OperationModel| #[trigger] coming.holds(a) && #[trigger]
        coming.holds(b) && a != b implies may_come_first(a, b) && lamport_timestamp_of(a)
        != lamport_timestamp_of(b) by {
        let i = left.index_of(a->Edit_0);
        let j = left.index_of(b->Edit_0);
        assert(OperationModel::Edit(left[i]) == ops[i] && OperationModel::Edit(left[j]) == ops[j]);
        assert(may_come_first(ops[i], ops[j]));
        if i < j {
            assert(lamport_of(left[i].timestamp) != lamport_of(left[j].timestamp));
        } else {
            assert(lamport_of(left[j].timestamp) != lamport_of(left[i].timestamp));
        }
    }
    assert(left.no_duplicates()) by {
        assert forall|i: int, j: int| 0 <= i < left.len() && 0 <= j < left.len() && i
            != j implies left[i] != left[j] by {
            if i < j {
                assert(lamport_of(left[i].timestamp) != lamport_of(left[j].timestamp));
            } else {
                assert(lamport_of(left[j].timestamp) != lamport_of(left[i].timestamp));
            }
        }
    }
}

/// Edits leave the record of undos as it is.
proof fn lemma_edits_only_log(s: State, ops: Seq<OperationModel>)
    requires
        takes(s, ops),
        only_edits(ops),
    ensures
        took(s, ops).log == s.log,
    decreases ops.len(),
{
    if ops.len() > 0 {
        let rest = ops.skip(1);
        assert(ops[0] is Edit);
        assert forall|i: int| 0 <= i < rest.len() implies (#[trigger] rest[i]) is Edit by {
            assert(rest[i] == ops[i + 1]);
        }
        lemma_applied_edit(s, ops[0]->Edit_0);
        lemma_edits_only_log(applied(s, ops[0]), rest);
    }
}

/// A buffer that has been edited and nothing else, written into a message and
/// read out of it again: the message is read without an error, in whatever order
/// it holds the edits, and what is read has the same text and has seen the same
/// operations, and nothing waits.
pub proof fn law_text_round_trip(
    start: State,
    b: State,
    ops: Seq<OperationModel>,
    replica_id: ReplicaId,
    message: proto::Buffer,
    file: Option<FileModel>,
    language: Option<Language>,
)
    requires
        start == received(start.replica_id, message, start.file, start.language),
        grown(start, b, ops),
        history_says(message.history@, b.history.ops),
        b.cells.len() < usize::MAX,
        times_left(ops),
    ensures
        ({
            let s = reparsing(received(replica_id, message, file, language));
            let read = ops_applied(s, edits_meant(message.history@));
            &&& !ops_fail(s, edits_meant(message.history@))
            &&& read.text() == b.text()
            &&& same_version(read.version, b.version)
            &&& read.deferred_ops.len() == 0
            &&& read.remote_id == message.id
        }),
{
    let s = reparsing(received(replica_id, message, file, language));
    let mine = edits_meant(message.history@);
    let batches = seq![mine];
    lemma_history_meant(start, b, ops, message.history@);
    lemma_another_order(start, s, ops, mine);
    lemma_one_batch(s, mine);
    lemma_accepted(start, s, b, ops, mine);
    assert(timed(s, mine)) by {
        assert forall|op: OperationModel| #[trigger] mine.contains(op) implies ops.contains(op) by {
        }
    }
    let done = lemma_all_done(s, batches);
    assert forall|op: OperationModel| #[trigger] done.contains(op) <==> ops.contains(op) by {
        assert(all_ops(batches).contains(op) <==> done.contains(op));
        assert(mine.contains(op) <==> ops.contains(op));
    }
    assert(settled(s.cells, s.log, s.version));
    lemma_read_alike(start, s, ops, done);
}

/// The messages are accepted.
proof fn lemma_accepted(
    start: State,
    s: State,
    b: State,
    ops: Seq<OperationModel>,
    mine: Seq<OperationModel>,
)
    requires
        grown(start, b, ops),
        s.cells == start.cells,
        s.log == start.log,
        s.version == start.version,
        s.deferred_ops.len() == 0,
        uniform(s.cells),
        s.lamport_clock.value == 1,
        b.cells.len() < usize::MAX,
        times_left(ops),
        only_edits(mine),
        forall|op: OperationModel| #[trigger] mine.contains(op) <==> ops.contains(op),
        forall|i: int, j: int| 0 <= i < j < mine.len() ==> #[trigger] mine[i] != #[trigger] mine[j],
    ensures
        !ops_fail(s, mine),
{
    lemma_leaves(start, s, b, ops);
    let left = Left { edits: edits_in(ops), undos: Set::empty() };
    assert forall|i: int| 0 <= i < mine.len() implies left.holds(#[trigger] mine[i]) by {
        assert(mine[i] is Edit);
        assert(mine.contains(mine[i]));
        lemma_edits_in(ops, mine[i]->Edit_0);
    }
    lemma_one_batch(s, mine);
    law_batches_are_accepted(s, seq![mine], left);
}

/// The same edits in another order, on another replica, give the same text.
proof fn lemma_read_alike(
    start: State,
    s: State,
    ops: Seq<OperationModel>,
    done: Seq<OperationModel>,
)
    requires
        takes(heart(start), ops),
        takes(heart(s), done),
        only_edits(ops),
        know_own(ops),
        at_different_times(edits_in(done)),
        forall|op: OperationModel| #[trigger] done.contains(op) <==> ops.contains(op),
        s.cells == start.cells,
        s.log == start.log,
        s.version == start.version,
        settled(s.cells, s.log, s.version),
    ensures
        took(heart(s), done).text() == took(heart(start), ops).text(),
        same_version(took(heart(s), done).version, took(heart(start), ops).version),
{
    let a = took(heart(s), done);
    let c = took(heart(start), ops);
    assert forall|i: int| 0 <= i < done.len() implies (#[trigger] done[i]) is Edit by {
        assert(done.contains(done[i]));
        assert(ops.contains(done[i]));
        let k = ops.index_of(done[i]);
        assert(ops[k] is Edit);
    }
    lemma_took(heart(s), done);
    lemma_took(heart(start), ops);
    lemma_same_seen(start.version, a.version, c.version, done, ops);
    lemma_ops_apart(start, ops);
    let x = edits_in(done);
    let y = edits_in(ops);
    assert forall|e: EditModel| #[trigger] x.contains(e) <==> y.contains(e) by {
        lemma_edits_in(done, e);
        lemma_edits_in(ops, e);
        assert(done.contains(OperationModel::Edit(e)) <==> ops.contains(OperationModel::Edit(e)));
    }
    lemma_edits_settle(heart(s), done);
    lemma_edits_settle(heart(start), ops);
    lemma_edits_only_log(heart(s), done);
    lemma_edits_only_log(heart(start), ops);
    law_edits_converge(s.cells, a.log, x, y);
    lemma_same_shown(a, c);
}

proof fn lemma_one_batch(s: State, mine: Seq<OperationModel>)
    ensures
        all_ops(seq![mine]) == mine,
        after_batches(s, seq![mine]) == ops_applied(s, mine),
        batches_fit(s, seq![mine]) == !ops_fail(s, mine),
        ops_applied(s, mine).remote_id == s.remote_id,
{
    let batches = seq![mine];
    let none = batches.drop_last();
    assert(none =~= Seq::<Seq<OperationModel>>::empty());
    assert(batches.last() == mine);
    assert(all_ops(none) =~= Seq::<OperationModel>::empty());
    assert(all_ops(batches) =~= mine);
    assert(after_batches(s, none) == s);
    assert(batches_fit(s, none));
    lemma_run_remote_id(State { pending_autoindent: false, ..s }, mine, mine.len() as int);
    let held = run_queued(first_run(s, mine));
    lemma_run_remote_id(
        reopened(held),
        held.deferred_ops,
        held.deferred_ops.len() as int,
    );
}

proof fn lemma_run_remote_id(s: State, ops: Seq<OperationModel>, n: int)
    ensures
        run_ops(s, ops, n).state.remote_id == s.remote_id,
    decreases n,
{
    if n > 0 {
        lemma_run_remote_id(s, ops, n - 1);
    }
}

proof fn lemma_ops_apart(start: State, ops: Seq<OperationModel>)
    requires
        takes(heart(start), ops),
        know_own(ops),
        only_edits(ops),
    ensures
        at_different_times(edits_in(ops)),
{
    assert(in_own_order(ops)) by {
        assert forall|i: int| 0 <= i < ops.len() implies own(#[trigger] ops[i]) by {
            assert(ops[i] is Edit);
        }
    }
    lemma_taken_apart(heart(start), ops, ops);
}

} // verus!
