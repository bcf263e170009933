//! The time of a replica: it runs ahead of all text that the replica has, so
//! that what is done next is newer than what was done before.

use vstd::prelude::*;

use crate::batch_laws::later_than_seen;
use crate::buffer::new_state;
use crate::clock::ReplicaId;
use crate::converge::{
    high, lemma_edited_laid, lemma_laid_at, lemma_new_text, lemma_stands, low, rising, text_at,
    within,
};
use crate::document::Cell;
use crate::file::FileModel;
use crate::fragment::{InsertionTimestamp, lamport_of, local_of};
use crate::history::{HistoryModel, TransactionModel};
use crate::operation::{OperationModel, bytes_of};
use crate::state::{State, applied, edit_operation, edited_within, op_fits, undone_or_redone};
use crate::syntax::Language;
use crate::undo_laws::{can_edit, lemma_in_sequence, lemma_local_places};
use crate::weave::{
    Plan, edited, inserted_cells, lemma_remote_plan, local_plan, remote_plan, touched,
};

verus! {

/// What the replica does next happens after all text that it has was inserted.
pub open spec fn time_ahead(s: State) -> bool {
    forall|i: int|
        0 <= i < s.cells.len() ==> (#[trigger] s.cells[i]).timestamp.lamport
            < s.lamport_clock.value
}

/// Text before and after an edit was inserted before a time.
proof fn lemma_edited_before(
    cells: Seq<Cell>,
    plan: Plan,
    timestamp: InsertionTimestamp,
    text: Seq<u8>,
    time: int,
)
    requires
        rising(plan.at),
        within(plan.at, cells.len() as int),
        forall|i: int| 0 <= i < cells.len() ==> (#[trigger] cells[i]).timestamp.lamport < time,
        timestamp.lamport < time,
    ensures
        forall|i: int|
            0 <= i < edited(cells, plan, timestamp, text).len() ==> (#[trigger] edited(
                cells,
                plan,
                timestamp,
                text,
            )[i]).timestamp.lamport < time,
{
    let m = touched(cells, plan, local_of(timestamp));
    let g = text_at(plan.at, inserted_cells(timestamp, text));
    let d = edited(cells, plan, timestamp, text);
    lemma_edited_laid(cells, plan, timestamp, text);
    lemma_new_text(plan.at, timestamp, text);
    lemma_laid_at(m, g, m.len() as int);
    assert forall|x: int| 0 <= x < d.len() implies (#[trigger] d[x]).timestamp.lamport < time by {
        let i = lemma_stands(m, g, x, m.len() as int);
        lemma_laid_at(m, g, i);
        let y = low(m, g, i);
        if x < high(m, g, i) {
            assert(d.subrange(y, high(m, g, i))[x - y] == g(i)[x - y]);
        } else {
            assert(d[x] == m[i]);
            assert(cells[i].timestamp.lamport < time);
        }
    }
}

/// The time of a new replica is ahead of the text that it starts with.
pub proof fn law_new_time_is_ahead(
    replica_id: ReplicaId,
    history: HistoryModel,
    file: Option<FileModel>,
    remote_id: u64,
    language: Option<Language>,
)
    ensures
        time_ahead(new_state(replica_id, history, file, remote_id, language)),
{
}

/// The time of a replica stays ahead of its text when the replica edits the text.
pub proof fn law_edit_keeps_time_ahead(s: State, ranges: Seq<(int, int)>, text: Seq<char>)
    requires
        time_ahead(s),
        can_edit(s, ranges, text),
        s.lamport_clock.value < u32::MAX,
    ensures
        time_ahead(edited_within(s, ranges, text)),
{
    let edit = edit_operation(s, ranges, text);
    let bytes = bytes_of(edit.new_text);
    let now = edited_within(s, ranges, text);
    lemma_local_places(s.cells, ranges, bytes);
    lemma_edited_before(
        s.cells,
        local_plan(s.cells, ranges),
        edit.timestamp,
        bytes,
        now.lamport_clock.value as int,
    );
}

/// So it does when the replica undoes or redoes a transaction.
pub proof fn law_undo_keeps_time_ahead(s: State, t: TransactionModel)
    requires
        time_ahead(s),
        s.lamport_clock.value < u32::MAX,
    ensures
        time_ahead(undone_or_redone(s, t)),
{
    let now = undone_or_redone(s, t);
    assert forall|i: int| 0 <= i < now.cells.len() implies (
    #[trigger] now.cells[i]).timestamp.lamport < now.lamport_clock.value by {
        assert(s.cells[i].timestamp.lamport < s.lamport_clock.value);
    }
}

/// And when it receives whatever operation fits.
pub proof fn law_receiving_keeps_time_ahead(s: State, op: OperationModel)
    requires
        time_ahead(s),
        op_fits(s, op),
    ensures
        time_ahead(applied(s, op)),
{
    let now = applied(s, op);
    match op {
        OperationModel::Edit(edit) => {
            let lamport = lamport_of(edit.timestamp);
            let bytes = bytes_of(edit.new_text);
            if now.cells != s.cells {
                let plan = remote_plan(s.cells, s.log, edit.version, lamport, edit.ranges);
                lemma_remote_plan(s.cells, s.log, edit.version, lamport, edit.ranges, bytes);
                lemma_in_sequence(plan, s.cells.len() as int);
                lemma_edited_before(
                    s.cells,
                    plan,
                    edit.timestamp,
                    bytes,
                    now.lamport_clock.value as int,
                );
            }
        },
        OperationModel::Undo { undo, lamport } => {
            assert forall|i: int| 0 <= i < now.cells.len() implies (
            #[trigger] now.cells[i]).timestamp.lamport < now.lamport_clock.value by {
                assert(s.cells[i].timestamp.lamport < s.lamport_clock.value);
            }
        },
        _ => {},
    }
}

/// What a replica whose time is ahead tells the others of is newer than all that
/// it has seen.
pub proof fn law_edits_are_newer_than_what_they_know(
    s: State,
    ranges: Seq<(int, int)>,
    text: Seq<char>,
)
    requires
        time_ahead(s),
    ensures
        later_than_seen(s.cells, edit_operation(s, ranges, text)),
{
}

} // verus!
