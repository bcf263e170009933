//! Buffers whose whole history can be undone and redone, and how they stay that
//! way.

use std::sync::Arc;

use vstd::prelude::*;

use crate::buffer::new_state;
use crate::clock::{
    Local, ReplicaId, Version, after, exceeds, includes, observes, same_version, seen_of,
};
use crate::delivery_laws::clock_ahead;
use crate::file::FileModel;
use crate::fragment::{having_seen, lamport_of, lemma_having_seen_only, local_of};
use crate::history::{
    HistoryModel, TransactionModel, absorbed_ranges, ended_transaction, filing, grouped,
    grouped_len, joins, law_group_leaves_last_apart, new_history, plus, transaction_ended,
    with_edit, with_edits, with_transactions,
};
use crate::indent::AutoindentRequest;
use crate::operation::{EditModel, OperationModel, SelectionSetId, bytes_of};
use crate::reach_laws::{
    law_redo_takes_back_undo, law_undo_keeps_settled, law_undo_moves_version_on,
    law_undo_reaches_transaction, lemma_other_keeps_reach, lemma_same_reach, lemma_sees_more,
    reaches,
};
use crate::replica_laws::{changes_text, law_own_edit_lands, lemma_applied, name_of};
use crate::replicas::fits_in;
use crate::state::{
    State, applied, edit_applied, edit_operation, edited_within, ended, kept_of, op_fits,
    redone_once, started, undo_of, undone_once, undone_or_redone,
};
use crate::syntax::Language;
use crate::transaction_laws::{
    Change, at_time, can_edit_in_turn, edited_in_turn, filed, holds_edits, last_operation,
    law_joined_transaction_holds_both, law_transaction_holds_its_edits, lemma_counts,
    lemma_gathered, lemma_in_turn, lemma_names_seen, lemma_shifted_len, names_in_turn,
    ranges_in_turn,
};
use crate::undo_laws::{can_edit, law_new_buffer_is_settled, law_remote_edit_keeps_settled, settled};
use crate::undo_map::{largest_count, undos_of};

verus! {

/// The transaction can be undone or redone: the buffer has seen what it started
/// from and what it ended with, and undoing it reaches all that its edits did.
pub open spec fn kept(s: State, t: TransactionModel) -> bool {
    &&& includes(s.version, t.start)
    &&& includes(s.version, t.end)
    &&& reaches(s.cells, s.log, s.version, undo_of(s, t))
}

/// The buffer is as the edits of the transaction have left it.
pub open spec fn made_by(s: State, o: State, changes: Seq<Change>, t: TransactionModel) -> bool {
    let made = edited_in_turn(o, changes);
    &&& settled(o.cells, o.log, o.version)
    &&& clock_ahead(o)
    &&& can_edit_in_turn(o, changes)
    &&& holds_edits(t, o, changes)
    &&& made.cells == s.cells
    &&& made.log == s.log
    &&& made.version == s.version
    &&& made.local_clock == s.local_clock
    &&& made.replica_id == s.replica_id
}

/// If nothing has happened since the last transaction, the buffer is as that one
/// has left it.
pub open spec fn fresh(s: State) -> bool {
    s.history.undo_stack.len() > 0 && same_version(s.version, s.history.undo_stack.last().end)
        ==> exists|o: State, changes: Seq<Change>| #[trigger]
        made_by(s, o, changes, s.history.undo_stack.last())
}

/// No two neighbouring transactions would be joined, neither those that can be
/// undone, nor those that can be redone, nor where the ones meet the others.
pub open spec fn apart(h: HistoryModel) -> bool {
    &&& forall|i: int|
        0 < i < h.undo_stack.len() ==> !joins(
            h.undo_stack[i - 1],
            #[trigger] h.undo_stack[i],
            h.group_interval,
        )
    &&& forall|i: int|
        0 < i < h.redo_stack.len() ==> !joins(
            #[trigger] h.redo_stack[i],
            h.redo_stack[i - 1],
            h.group_interval,
        )
    &&& h.undo_stack.len() > 0 && h.redo_stack.len() > 0 ==> !joins(
        h.undo_stack.last(),
        h.redo_stack.last(),
        h.group_interval,
    )
}

/// The buffer shows what its record says, its clock is ahead, no two neighbouring
/// transactions of its history would be joined, and every transaction can be
/// undone or redone.
pub open spec fn sound(s: State) -> bool {
    &&& settled(s.cells, s.log, s.version)
    &&& clock_ahead(s)
    &&& fresh(s)
    &&& apart(s.history)
    &&& forall|i: int|
        0 <= i < s.history.undo_stack.len() ==> kept(s, #[trigger] s.history.undo_stack[i])
    &&& forall|i: int|
        0 <= i < s.history.redo_stack.len() ==> kept(s, #[trigger] s.history.redo_stack[i])
}

/// A transaction can still be undone or redone after an operation that the buffer
/// had not seen.
proof fn lemma_still_kept(s: State, next: State, op: OperationModel, t: TransactionModel)
    requires
        kept(s, t),
        changes_text(op),
        op matches OperationModel::Edit(e) ==> fits_in(s.cells, e),
        !observes(s.version, name_of(op)),
        next.cells == applied(s, op).cells,
        next.log == applied(s, op).log,
        next.version == applied(s, op).version,
        clock_ahead(next),
    ensures
        kept(next, t),
{
    let undo = undo_of(s, t);
    let known = having_seen(undo.version, undo.counts.dom());
    let id = name_of(op);
    lemma_applied(s, op);
    if observes(known, id) {
        assert(seen_of(s.version, id.replica_id) >= seen_of(t.start, id.replica_id));
        lemma_having_seen_only(undo.version, undo.counts.dom(), id);
        let d = choose|d: Local| #[trigger]
            undo.counts.dom().contains(d) && d.replica_id == id.replica_id && d.value >= id.value;
        assert(undo.counts.contains_key(d));
        assert(observes(s.version, d));
    }
    lemma_other_keeps_reach(s, op, undo);
    let again = undo_of(next, t);
    let n = t.edits.len() as int;
    lemma_counts(s.log, t.edits, n);
    lemma_counts(next.log, t.edits, n);
    assert(again.counts.dom() =~= undo.counts.dom());
    assert forall|r: ReplicaId| seen_of(next.version, r) >= #[trigger] seen_of(t.start, r) by {
        assert(seen_of(s.version, r) >= seen_of(t.start, r));
    }
    assert forall|r: ReplicaId| seen_of(next.version, r) >= #[trigger] seen_of(t.end, r) by {
        assert(seen_of(s.version, r) >= seen_of(t.end, r));
    }
    let r = next.local_clock.replica_id;
    assert(seen_of(next.version, r) >= seen_of(t.start, r));
    lemma_same_reach(next, undo, again);
}

/// So can all of them.
proof fn lemma_still_sound(s: State, next: State, op: OperationModel)
    requires
        sound(s),
        changes_text(op),
        op matches OperationModel::Edit(e) ==> fits_in(s.cells, e),
        !observes(s.version, name_of(op)),
        next.cells == applied(s, op).cells,
        next.log == applied(s, op).log,
        next.version == applied(s, op).version,
        clock_ahead(next),
    ensures
        forall|i: int|
            0 <= i < s.history.undo_stack.len() ==> kept(next, #[trigger] s.history.undo_stack[i]),
        forall|i: int|
            0 <= i < s.history.redo_stack.len() ==> kept(next, #[trigger] s.history.redo_stack[i]),
{
    assert forall|i: int| 0 <= i < s.history.undo_stack.len() implies kept(
        next,
        #[trigger] s.history.undo_stack[i],
    ) by {
        lemma_still_kept(s, next, op, s.history.undo_stack[i]);
    }
    assert forall|i: int| 0 <= i < s.history.redo_stack.len() implies kept(
        next,
        #[trigger] s.history.redo_stack[i],
    ) by {
        lemma_still_kept(s, next, op, s.history.redo_stack[i]);
    }
}

/// A version that has moved on is not the one that a transaction ended with.
proof fn lemma_moved_on(v: Version, now: Version, end: Version)
    requires
        includes(v, end),
        exceeds(now, v),
    ensures
        !same_version(now, end),
{
    if same_version(now, end) {
        assert forall|r: ReplicaId| seen_of(v, r) >= #[trigger] seen_of(now, r) by {
            assert(seen_of(end, r) >= seen_of(now, r));
            assert(seen_of(v, r) >= seen_of(end, r));
        }
    }
}

/// A new buffer is sound.
pub proof fn law_new_buffer_is_sound(
    replica_id: ReplicaId,
    base_text: Seq<char>,
    file: Option<FileModel>,
    remote_id: u64,
    language: Option<Language>,
)
    ensures
        sound(new_state(replica_id, new_history(base_text), file, remote_id, language)),
{
    law_new_buffer_is_settled(replica_id, new_history(base_text), file, remote_id, language);
}

/// A sound buffer stays sound when it receives an edit or an undo that another
/// replica has made, if the undo reaches what its edits did.
pub proof fn law_receiving_keeps_sound(s: State, op: OperationModel)
    requires
        sound(s),
        changes_text(op),
        op_fits(s, op),
        op matches OperationModel::Edit(e) ==> fits_in(s.cells, e),
        !observes(s.version, name_of(op)),
        name_of(op).replica_id != s.local_clock.replica_id,
        op matches OperationModel::Undo { undo, lamport } ==> reaches(
            s.cells,
            s.log,
            s.version,
            undo,
        ),
    ensures
        sound(applied(s, op)),
{
    let next = applied(s, op);
    match op {
        OperationModel::Edit(e) => {
            law_remote_edit_keeps_settled(s, e);
        },
        OperationModel::Undo { undo, lamport } => {
            law_undo_keeps_settled(s, undo, lamport);
        },
        _ => {},
    }
    lemma_applied(s, op);
    lemma_still_sound(s, next, op);
    let id = name_of(op);
    assert(seen_of(next.version, id.replica_id) > seen_of(s.version, id.replica_id));
    assert(!includes(s.version, next.version));
    if s.history.undo_stack.len() > 0 {
        let t = s.history.undo_stack.last();
        assert(next.history.undo_stack == s.history.undo_stack);
        assert(kept(s, s.history.undo_stack[s.history.undo_stack.len() - 1]));
        lemma_moved_on(s.version, next.version, t.end);
    }
}

/// What undoing or redoing one of its transactions does to a sound buffer.
proof fn lemma_turned(s: State, next: State, t: TransactionModel)
    requires
        sound(s),
        kept(s, t),
        s.local_clock.value < u32::MAX,
        next.cells == undone_or_redone(s, t).cells,
        next.log == undone_or_redone(s, t).log,
        next.version == undone_or_redone(s, t).version,
        next.local_clock == undone_or_redone(s, t).local_clock,
    ensures
        settled(next.cells, next.log, next.version),
        clock_ahead(next),
        exceeds(next.version, s.version),
        kept(next, t),
        forall|i: int|
            0 <= i < s.history.undo_stack.len() ==> kept(next, #[trigger] s.history.undo_stack[i]),
        forall|i: int|
            0 <= i < s.history.redo_stack.len() ==> kept(next, #[trigger] s.history.redo_stack[i]),
{
    let undo = undo_of(s, t);
    let op = OperationModel::Undo { undo, lamport: s.lamport_clock };
    law_undo_keeps_settled(s, undo, s.lamport_clock);
    law_undo_moves_version_on(s, t);
    lemma_still_kept(s, next, op, t);
    lemma_still_sound(s, next, op);
}

/// Undo leaves a sound buffer sound, and its version moves on.
pub proof fn law_undo_keeps_sound(s: State)
    requires
        sound(s),
        s.history.undo_stack.len() > 0,
        s.local_clock.value < u32::MAX,
    ensures
        sound(undone_once(s)),
        exceeds(undone_once(s).version, s.version),
{
    let stack = s.history.undo_stack;
    let n = stack.len() as int;
    let t = stack[n - 1];
    let next = undone_once(s);
    assert(kept(s, stack[n - 1]));
    assert(next.cells == undone_or_redone(s, t).cells);
    assert(next.version == undone_or_redone(s, t).version);
    lemma_turned(s, next, t);
    assert forall|i: int| 0 <= i < next.history.undo_stack.len() implies kept(
        next,
        #[trigger] next.history.undo_stack[i],
    ) by {
        assert(next.history.undo_stack[i] == stack[i]);
    }
    assert forall|i: int| 0 <= i < next.history.redo_stack.len() implies kept(
        next,
        #[trigger] next.history.redo_stack[i],
    ) by {
        if i < s.history.redo_stack.len() {
            assert(next.history.redo_stack[i] == s.history.redo_stack[i]);
        } else {
            assert(next.history.redo_stack[i] == t);
        }
    }
    if n > 1 {
        assert(next.history.undo_stack.last() == stack[n - 2]);
        assert(kept(s, stack[n - 2]));
        lemma_moved_on(s.version, next.version, stack[n - 2].end);
    }
    assert(apart(next.history)) by {
        assert forall|i: int| 0 < i < next.history.undo_stack.len() implies !joins(
            next.history.undo_stack[i - 1],
            #[trigger] next.history.undo_stack[i],
            s.history.group_interval,
        ) by {
            assert(next.history.undo_stack[i] == stack[i]);
        }
        if n > 1 {
            assert(!joins(stack[n - 2], stack[n - 1], s.history.group_interval));
        }
    }
}

/// So does redo.
pub proof fn law_redo_keeps_sound(s: State)
    requires
        sound(s),
        s.history.redo_stack.len() > 0,
        s.local_clock.value < u32::MAX,
    ensures
        sound(redone_once(s)),
        exceeds(redone_once(s).version, s.version),
{
    let stack = s.history.redo_stack;
    let n = stack.len() as int;
    let t = stack[n - 1];
    let next = redone_once(s);
    assert(kept(s, stack[n - 1]));
    assert(next.cells == undone_or_redone(s, t).cells);
    assert(next.version == undone_or_redone(s, t).version);
    lemma_turned(s, next, t);
    assert forall|i: int| 0 <= i < next.history.redo_stack.len() implies kept(
        next,
        #[trigger] next.history.redo_stack[i],
    ) by {
        assert(next.history.redo_stack[i] == stack[i]);
    }
    assert forall|i: int| 0 <= i < next.history.undo_stack.len() implies kept(
        next,
        #[trigger] next.history.undo_stack[i],
    ) by {
        if i < s.history.undo_stack.len() {
            assert(next.history.undo_stack[i] == s.history.undo_stack[i]);
        } else {
            assert(next.history.undo_stack[i] == t);
        }
    }
    assert(next.history.undo_stack.last() == t);
    lemma_moved_on(s.version, next.version, t.end);
    assert(apart(next.history)) by {
        assert forall|i: int| 0 < i < next.history.undo_stack.len() implies !joins(
            next.history.undo_stack[i - 1],
            #[trigger] next.history.undo_stack[i],
            s.history.group_interval,
        ) by {
            if i < s.history.undo_stack.len() {
                assert(next.history.undo_stack[i] == s.history.undo_stack[i]);
            }
        }
        assert forall|i: int| 0 < i < next.history.redo_stack.len() implies !joins(
            #[trigger] next.history.redo_stack[i],
            next.history.redo_stack[i - 1],
            s.history.group_interval,
        ) by {
            assert(next.history.redo_stack[i] == stack[i]);
        }
        if n > 1 {
            assert(!joins(stack[n - 1], stack[n - 2], s.history.group_interval));
        }
    }
}

/// Undo and then redo leave a sound buffer with the text that it had, and with a
/// version that has moved on.
pub proof fn law_undo_and_redo(s: State)
    requires
        sound(s),
        s.history.undo_stack.len() > 0,
        s.local_clock.value < u32::MAX - 1,
        forall|id: Local| #[trigger]
            s.history.undo_stack.last().edits.contains(id) ==> largest_count(
                undos_of(s.log, id),
            ) < u32::MAX - 1,
    ensures
        redone_once(undone_once(s)).text() == s.text(),
        exceeds(redone_once(undone_once(s)).version, s.version),
        sound(redone_once(undone_once(s))),
{
    let stack = s.history.undo_stack;
    let n = stack.len() as int;
    let t = stack.last();
    assert(kept(s, stack[n - 1]));
    law_redo_takes_back_undo(s, t);
    let back = undone_once(s);
    let plain = undone_or_redone(s, t);
    law_undo_keeps_sound(s);
    law_redo_keeps_sound(back);
    assert(back.cells == plain.cells && back.log == plain.log && back.version == plain.version
        && back.local_clock == plain.local_clock);
    assert(back.history.redo_stack.last() == t);
    let again = redone_once(back);
    assert(again.cells == undone_or_redone(plain, t).cells);
    assert(again.version == undone_or_redone(plain, t).version);
}

/// The buffers have the same text, record, version and clock.
pub open spec fn same_matter(a: State, b: State) -> bool {
    &&& a.cells == b.cells
    &&& a.log == b.log
    &&& a.version == b.version
    &&& a.local_clock == b.local_clock
    &&& a.replica_id == b.replica_id
}

/// Each of the edits is made at a time of the buffer's own, and at none before
/// that of a text which is there.
pub open spec fn in_time(s: State, changes: Seq<Change>) -> bool
    decreases changes.len(),
{
    changes.len() > 0 ==> {
        let before = edited_in_turn(s, changes.drop_last());
        let lamport = changes.last().2;
        &&& in_time(s, changes.drop_last())
        &&& lamport.replica_id == s.replica_id
        &&& forall|i: int|
            0 <= i < before.cells.len() ==> !after(
                lamport_of((#[trigger] before.cells[i]).timestamp),
                lamport,
            )
    }
}

/// Edits do the same to buffers with the same text, record, version and clock.
proof fn lemma_same_in_turn(a: State, b: State, changes: Seq<Change>)
    requires
        same_matter(a, b),
    ensures
        same_matter(edited_in_turn(a, changes), edited_in_turn(b, changes)),
        names_in_turn(a, changes) == names_in_turn(b, changes),
        changes.len() > 0 ==> last_operation(a, changes) == last_operation(b, changes),
        can_edit_in_turn(a, changes) == can_edit_in_turn(b, changes),
    decreases changes.len(),
{
    if changes.len() > 0 {
        lemma_same_in_turn(a, b, changes.drop_last());
    }
}

/// The same edits are on file.
proof fn lemma_same_filed(a: State, b: State, changes: Seq<Change>, ops: Map<Local, EditModel>)
    requires
        same_matter(a, b),
        filed(ops, a, changes),
    ensures
        filed(ops, b, changes),
    decreases changes.len(),
{
    if changes.len() > 0 {
        lemma_same_filed(a, b, changes.drop_last(), ops);
        lemma_same_in_turn(a, b, changes);
    }
}

/// Edits that can be made after others can be made in turn with them.
proof fn lemma_can_edit_on(s: State, first: Seq<Change>, second: Seq<Change>)
    requires
        can_edit_in_turn(s, first),
        can_edit_in_turn(edited_in_turn(s, first), second),
    ensures
        can_edit_in_turn(s, first + second),
    decreases second.len(),
{
    let all = first + second;
    if second.len() > 0 {
        lemma_can_edit_on(s, first, second.drop_last());
        assert(all.drop_last() =~= first + second.drop_last());
        assert(all.last() == second.last());
        lemma_in_turn(s, first, second.drop_last());
    } else {
        assert(all =~= first);
    }
}

/// The last edit has another name than those before it, which stay on file.
proof fn lemma_filed_on(s: State, changes: Seq<Change>, ops: Map<Local, EditModel>, edit: EditModel)
    requires
        filed(ops, s, changes),
        forall|i: int|
            0 <= i < names_in_turn(s, changes).len() ==> #[trigger] names_in_turn(s, changes)[i]
                != local_of(edit.timestamp),
    ensures
        filed(ops.insert(local_of(edit.timestamp), edit), s, changes),
    decreases changes.len(),
{
    if changes.len() > 0 {
        let past = changes.drop_last();
        let names = names_in_turn(s, changes);
        assert forall|i: int| 0 <= i < names_in_turn(s, past).len() implies #[trigger] names_in_turn(
            s,
            past,
        )[i] != local_of(edit.timestamp) by {
            assert(names[i] == names_in_turn(s, past)[i]);
        }
        lemma_filed_on(s, past, ops, edit);
        assert(names[names.len() - 1] == local_of(last_operation(s, changes).timestamp));
    }
}

/// A list of ranges that has taken in others is not empty.
proof fn lemma_absorbed_some(
    range: (int, int),
    ranges: Seq<(int, int)>,
    others: Seq<(int, int)>,
    len: int,
    delta: int,
)
    ensures
        absorbed_ranges(range, ranges, others, len, delta).len() > 0,
    decreases others.len(),
{
    if others.len() > 0 && plus(others[0].0, delta) <= range.1 {
        let start = plus(others[0].0, delta);
        let end = plus(others[0].1, delta);
        if end >= range.0 {
            lemma_absorbed_some(
                (
                    if start < range.0 {
                        start
                    } else {
                        range.0
                    },
                    plus(
                        if end > range.1 {
                            end
                        } else {
                            range.1
                        },
                        len,
                    ),
                ),
                ranges,
                others.drop_first(),
                len,
                plus(delta, len),
            );
        }
    }
}

/// What a transaction holds while it goes on.
proof fn lemma_under_way(
    s: State,
    set_id: Option<SelectionSetId>,
    now: u64,
    changes: Seq<Change>,
)
    requires
        s.history.depth == 0,
        settled(s.cells, s.log, s.version),
        clock_ahead(s),
        can_edit_in_turn(started(s, set_id, now), changes),
    ensures
        ({
            let begun = started(s, set_id, now);
            let made = edited_in_turn(begun, changes);
            let stack = made.history.undo_stack;
            &&& stack.len() == s.history.undo_stack.len() + 1
            &&& stack.drop_last() == s.history.undo_stack
            &&& holds_edits(stack.last(), begun, changes)
            &&& stack.last().first_edit_at == now
            &&& stack.last().end == made.version
            &&& changes.len() > 0 ==> stack.last().ranges.len() > 0
            &&& made.history.redo_stack == s.history.redo_stack
            &&& made.history.group_interval == s.history.group_interval
            &&& made.history.depth == 1
            &&& filed(made.history.ops, begun, changes)
            &&& settled(made.cells, made.log, made.version)
            &&& clock_ahead(made)
        }),
    decreases changes.len(),
{
    let begun = started(s, set_id, now);
    law_transaction_holds_its_edits(s, set_id, now, changes);
    lemma_gathered(begun, changes);
    if changes.len() > 0 {
        let past = changes.drop_last();
        lemma_under_way(s, set_id, now, past);
        lemma_gathered(begun, past);
        let before = edited_in_turn(begun, past);
        let made = edited_in_turn(begun, changes);
        let edit = last_operation(begun, changes);
        let id = local_of(edit.timestamp);
        assert(filing(before.history, edit).ops[id] == edit);
        assert(made.history.undo_stack.last() == with_edit(before.history.undo_stack.last(), edit));
        assert(id == before.local_clock);
        lemma_filed_on(begun, past, before.history.ops, edit);
        let ranges = ranges_in_turn(begun, past);
        let n = bytes_of(edit.new_text).len() as int;
        if ranges.len() > 0 {
            lemma_absorbed_some(
                (plus(ranges[0].0, 0), plus(ranges[0].1, 0)),
                ranges.drop_first(),
                edit.ranges,
                n,
                0,
            );
        } else {
            assert(edit.ranges.len() == changes.last().0.len());
            lemma_shifted_len(edit.ranges, n, 0);
        }
    }
}

/// A transaction can still be undone or redone after edits of the visible text.
proof fn lemma_kept_in_turn(s: State, changes: Seq<Change>, t: TransactionModel)
    requires
        kept(s, t),
        settled(s.cells, s.log, s.version),
        clock_ahead(s),
        can_edit_in_turn(s, changes),
        in_time(s, changes),
    ensures
        kept(edited_in_turn(s, changes), t),
    decreases changes.len(),
{
    if changes.len() > 0 {
        let past = changes.drop_last();
        lemma_kept_in_turn(s, past, t);
        lemma_gathered(s, past);
        lemma_gathered(s, changes);
        let change = changes.last();
        let before = at_time(edited_in_turn(s, past), change.2);
        assert(kept(before, t)) by {
            assert(undo_of(before, t) == undo_of(edited_in_turn(s, past), t));
        }
        assert(can_edit(before, change.0, change.1));
        law_own_edit_lands(before, change.0, change.1);
        let op = OperationModel::Edit(edit_operation(before, change.0, change.1));
        assert(name_of(op) == before.local_clock);
        lemma_still_kept(before, edited_in_turn(s, changes), op, t);
    }
}

/// The transaction that has just been made can be undone.
proof fn lemma_top_kept(s: State, o: State, changes: Seq<Change>, t: TransactionModel)
    requires
        made_by(s, o, changes, t),
        t.end == s.version,
    ensures
        kept(s, t),
{
    let made = edited_in_turn(o, changes);
    law_undo_reaches_transaction(o, changes, t);
    lemma_sees_more(o, changes);
    assert(undo_of(made, t) == undo_of(s, t));
}

/// The transaction joins the last one, which then holds the edits of both.
pub proof fn lemma_joins_last(
    s: State,
    after: State,
    begun: State,
    changes: Seq<Change>,
    t: TransactionModel,
    left: HistoryModel,
    o: State,
    c: Seq<Change>,
)
    requires
        s.history.undo_stack.len() > 0,
        s.history.undo_stack.len() >= 2 ==> !joins(
            s.history.undo_stack[s.history.undo_stack.len() - 2],
            s.history.undo_stack.last(),
            s.history.group_interval,
        ),
        made_by(s, o, c, s.history.undo_stack.last()),
        joins(s.history.undo_stack.last(), t, s.history.group_interval),
        same_matter(begun, s),
        can_edit_in_turn(begun, changes),
        holds_edits(t, begun, changes),
        t.end == after.version,
        left.undo_stack == s.history.undo_stack.push(t),
        left.group_interval == s.history.group_interval,
        filed(left.ops, begun, changes),
        after.history == grouped(left),
        same_matter(after, edited_in_turn(begun, changes)),
    ensures
        after.history.undo_stack.len() == s.history.undo_stack.len(),
        after.history.undo_stack.drop_last() == s.history.undo_stack.drop_last(),
        after.history.undo_stack.last().end == after.version,
        after.history.undo_stack.last().last_edit_at == t.last_edit_at,
        made_by(after, o, c + changes, after.history.undo_stack.last()),
{
    let stack = s.history.undo_stack;
    let n = stack.len() as int;
    let last = stack.last();
    let all = left.undo_stack;
    let m = edited_in_turn(o, c);
    let whole = c + changes;
    // The edits are those that were made to the buffer.
    assert(same_matter(begun, m));
    lemma_same_in_turn(begun, m, changes);
    lemma_same_filed(begun, m, changes, left.ops);
    law_joined_transaction_holds_both(o, c, changes, last, left.ops);
    lemma_in_turn(o, c, changes);
    lemma_can_edit_on(o, c, changes);
    // What the history holds.
    assert(all[n - 1] == last && all[n] == t);
    assert(grouped_len(all, left.group_interval, n + 1) == grouped_len(
        all,
        left.group_interval,
        n,
    ));
    if n >= 2 {
        assert(all[n - 2] == stack[n - 2]);
    }
    assert(grouped_len(all, left.group_interval, n) == n);
    let joined = with_transactions(all[n - 1], all, left.ops, n, n + 1);
    assert(with_transactions(all[n - 1], all, left.ops, n, n) == last);
    assert(joined == with_edits(last, t.edits, left.ops, t.edits.len() as int));
    let top = after.history.undo_stack.last();
    assert(top.start == joined.start && top.edits == joined.edits && top.ranges == joined.ranges);
    assert(top.end == t.end);
    assert(holds_edits(top, o, whole));
    assert(made_by(after, o, whole, top));
    assert(after.history.undo_stack.drop_last() =~= stack.drop_last());
}

/// So it does in a sound buffer.
proof fn lemma_joined(
    s: State,
    after: State,
    begun: State,
    changes: Seq<Change>,
    t: TransactionModel,
    left: HistoryModel,
)
    requires
        sound(s),
        s.history.undo_stack.len() > 0,
        joins(s.history.undo_stack.last(), t, s.history.group_interval),
        same_matter(begun, s),
        can_edit_in_turn(begun, changes),
        holds_edits(t, begun, changes),
        t.end == after.version,
        left.undo_stack == s.history.undo_stack.push(t),
        left.group_interval == s.history.group_interval,
        filed(left.ops, begun, changes),
        after.history == grouped(left),
        same_matter(after, edited_in_turn(begun, changes)),
    ensures
        after.history.undo_stack.len() == s.history.undo_stack.len(),
        after.history.undo_stack.drop_last() == s.history.undo_stack.drop_last(),
        after.history.undo_stack.last().end == after.version,
        fresh(after),
        kept(after, after.history.undo_stack.last()),
{
    let stack = s.history.undo_stack;
    let n = stack.len() as int;
    let last = stack.last();
    assert(same_version(s.version, last.end));
    assert(fresh(s));
    let (o, c) = choose|o: State, c: Seq<Change>| #[trigger] made_by(s, o, c, last);
    if n >= 2 {
        assert(!joins(stack[n - 2], stack[n - 1], s.history.group_interval));
    }
    lemma_joins_last(s, after, begun, changes, t, left, o, c);
    lemma_top_kept(after, o, c + changes, after.history.undo_stack.last());
}

/// A transaction that has just ended stands apart from what can be redone, and,
/// as transactions that join have been joined, from what can be undone.
proof fn lemma_apart(s: State, after: State, left: HistoryModel)
    requires
        sound(s),
        left.undo_stack.len() == s.history.undo_stack.len() + 1,
        left.undo_stack.drop_last() == s.history.undo_stack,
        left.redo_stack == s.history.redo_stack,
        left.group_interval == s.history.group_interval,
        after.history == grouped(left),
        after.history.undo_stack.last().end == after.version,
        exceeds(after.version, s.version),
    ensures
        apart(after.history),
{
    law_group_leaves_last_apart(left);
    let stack = s.history.undo_stack;
    let redo = s.history.redo_stack;
    let now = after.history.undo_stack;
    let n = now.len() as int;
    assert forall|i: int| 0 < i < n implies !joins(
        now[i - 1],
        #[trigger] now[i],
        s.history.group_interval,
    ) by {
        if i < n - 1 {
            assert(now[i] == left.undo_stack[i]);
            assert(left.undo_stack.drop_last()[i] == stack[i]);
            assert(now[i - 1] == left.undo_stack[i - 1]);
            assert(left.undo_stack.drop_last()[i - 1] == stack[i - 1]);
        }
    }
    if redo.len() > 0 {
        let t = redo[redo.len() - 1];
        assert(kept(s, t));
        lemma_moved_on(s.version, after.version, t.start);
    }
}

/// A transaction of edits of the visible text leaves a sound buffer sound, and
/// its version moves on, whether the transaction stands for itself or joins the
/// last one.
pub proof fn law_transaction_keeps_sound(
    s: State,
    start_set: Option<SelectionSetId>,
    started_at: u64,
    changes: Seq<Change>,
    done: State,
    end_set: Option<SelectionSetId>,
    ended_at: u64,
)
    requires
        sound(s),
        s.history.depth == 0,
        changes.len() > 0,
        can_edit_in_turn(started(s, start_set, started_at), changes),
        in_time(started(s, start_set, started_at), changes),
        same_matter(done, edited_in_turn(started(s, start_set, started_at), changes)),
        done.history == edited_in_turn(started(s, start_set, started_at), changes).history,
    ensures
        sound(ended(done, end_set, ended_at)),
        exceeds(ended(done, end_set, ended_at).version, s.version),
        same_matter(ended(done, end_set, ended_at), done),
{
    let begun = started(s, start_set, started_at);
    let made = edited_in_turn(begun, changes);
    let after = ended(done, end_set, ended_at);
    let stack = s.history.undo_stack;
    let n = stack.len() as int;
    lemma_under_way(s, start_set, started_at, changes);
    let selections = kept_of(done, end_set);
    let left = transaction_ended(done.history, selections, ended_at);
    let t = TransactionModel {
        selections_after: selections,
        last_edit_at: ended_at,
        ..done.history.undo_stack.last()
    };
    assert(ended_transaction(done.history, selections, ended_at) == Some(t));
    assert(left.undo_stack =~= stack.push(t));
    assert(left.undo_stack.drop_last() =~= stack);
    assert(after.history == grouped(left));
    assert(same_matter(after, made));
    lemma_sees_more(begun, changes);
    lemma_gathered(begun, changes);
    assert(!includes(s.version, after.version)) by {
        let names = names_in_turn(begun, changes);
        assert(names[0].value == s.local_clock.value);
        lemma_names_seen(begun, changes);
        assert(names.contains(names[0]));
        assert(observes(made.version, names[0]));
        assert(names[0] == s.local_clock);
        assert(seen_of(made.version, s.local_clock.replica_id) > seen_of(
            s.version,
            s.local_clock.replica_id,
        ));
    }
    assert forall|u: TransactionModel| #[trigger] kept(s, u) implies kept(after, u) by {
        assert(undo_of(begun, u) == undo_of(s, u));
        lemma_kept_in_turn(begun, changes, u);
        assert(undo_of(made, u) == undo_of(after, u));
    }
    let top = after.history.undo_stack.last();
    if n > 0 && joins(stack[n - 1], t, s.history.group_interval) {
        lemma_joined(s, after, begun, changes, t, left);
    } else {
        assert(grouped_len(left.undo_stack, left.group_interval, n + 1) == n + 1);
        assert(after.history == left);
        assert(made_by(after, begun, changes, top));
        lemma_top_kept(after, begun, changes, t);
        assert(fresh(after));
    }
    lemma_apart(s, after, left);
    assert forall|i: int| 0 <= i < after.history.undo_stack.len() implies kept(
        after,
        #[trigger] after.history.undo_stack[i],
    ) by {
        if i < after.history.undo_stack.len() - 1 {
            assert(after.history.undo_stack[i] == after.history.undo_stack.drop_last()[i]);
            assert(after.history.undo_stack[i] == stack[i]);
            assert(kept(s, stack[i]));
        }
    }
    assert forall|i: int| 0 <= i < after.history.redo_stack.len() implies kept(
        after,
        #[trigger] after.history.redo_stack[i],
    ) by {
        assert(kept(s, s.history.redo_stack[i]));
    }
}

/// A transaction in which nothing is edited leaves a buffer as it was.
pub proof fn law_empty_transaction_changes_nothing(
    s: State,
    start_set: Option<SelectionSetId>,
    started_at: u64,
    end_set: Option<SelectionSetId>,
    ended_at: u64,
)
    requires
        s.history.depth == 0,
    ensures
        ended(started(s, start_set, started_at), end_set, ended_at) == s,
{
    let begun = started(s, start_set, started_at);
    assert(begun.history.undo_stack.drop_last() =~= s.history.undo_stack);
}

/// An edit while a transaction goes on becomes part of it; nothing else happens
/// before the transaction ends.
pub proof fn law_edit_within_transaction(
    s: State,
    ranges: Seq<(int, int)>,
    text: Seq<char>,
    now: u64,
    requests: Seq<Arc<AutoindentRequest>>,
)
    requires
        s.history.depth > 0,
        ranges.len() > 0,
    ensures
        edit_applied(s, ranges, text, now, requests) == (State {
            pending_autoindent: false,
            requests,
            ..edited_within(s, ranges, text)
        }),
{
    let begun = started(State { pending_autoindent: false, ..s }, None, now);
    let within = edited_within(begun, ranges, text);
    let plain = edited_within(s, ranges, text);
    let left = transaction_ended(within.history, None, now);
    assert(ended_transaction(within.history, None, now) is None);
    assert(left =~= plain.history);
}

/// An edit of the visible text leaves a sound buffer sound, and its version moves
/// on, whether the edit stands for itself or joins the last transaction.
pub proof fn law_edit_keeps_sound(
    s: State,
    ranges: Seq<(int, int)>,
    text: Seq<char>,
    now: u64,
    requests: Seq<Arc<AutoindentRequest>>,
)
    requires
        sound(s),
        can_edit(s, ranges, text),
        s.history.depth == 0,
        s.lamport_clock.replica_id == s.replica_id,
        forall|i: int|
            0 <= i < s.cells.len() ==> !after(
                lamport_of((#[trigger] s.cells[i]).timestamp),
                s.lamport_clock,
            ),
    ensures
        sound(edit_applied(s, ranges, text, now, requests)),
        exceeds(edit_applied(s, ranges, text, now, requests).version, s.version),
{
    let quiet = State { pending_autoindent: false, ..s };
    let begun = started(quiet, None, now);
    let within = edited_within(begun, ranges, text);
    let changes: Seq<Change> = seq![(ranges, text, s.lamport_clock)];
    assert(sound(quiet)) by {
        if s.history.undo_stack.len() > 0 && same_version(
            s.version,
            s.history.undo_stack.last().end,
        ) {
            let last = s.history.undo_stack.last();
            let (o, c) = choose|o: State, c: Seq<Change>| #[trigger] made_by(s, o, c, last);
            assert(made_by(quiet, o, c, last));
        }
        assert forall|t: TransactionModel| #[trigger] kept(s, t) implies kept(quiet, t) by {
            assert(undo_of(quiet, t) == undo_of(s, t));
        }
        assert forall|i: int| 0 <= i < s.history.undo_stack.len() implies kept(
            quiet,
            #[trigger] s.history.undo_stack[i],
        ) by {
            assert(kept(s, s.history.undo_stack[i]));
        }
        assert forall|i: int| 0 <= i < s.history.redo_stack.len() implies kept(
            quiet,
            #[trigger] s.history.redo_stack[i],
        ) by {
            assert(kept(s, s.history.redo_stack[i]));
        }
    }
    assert(changes.drop_last() =~= Seq::<Change>::empty());
    assert(edited_in_turn(begun, changes.drop_last()) == begun);
    assert(at_time(begun, s.lamport_clock) =~= begun);
    assert(edited_in_turn(begun, changes) == within);
    assert(can_edit_in_turn(begun, changes.drop_last()));
    assert(can_edit_in_turn(begun, changes));
    assert(in_time(begun, changes.drop_last()));
    assert(in_time(begun, changes));
    let done = State { requests, ..within };
    law_transaction_keeps_sound(quiet, None, now, changes, done, None, now);
}

} // verus!
