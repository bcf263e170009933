//! What a buffer means, and what its operations do to it.

use std::sync::Arc;

use tree_sitter::Tree;
use vstd::prelude::*;
use vstd::utf8::*;

use crate::clock::{
    Lamport, Local, ReplicaId, Version, exceeds, includes, lamport_after, local_after, observes,
    observing,
};
use crate::context::{EffectModel, Event};
use crate::document::{Cell, visible_text};
use crate::edits::{Comparison, Span, edits_of};
use crate::file::FileModel;
use crate::fragment::{InsertionTimestamp, lamport_of, local_of};
use crate::history::{
    HistoryModel, TransactionModel, ended_transaction, filing, grouped, redo_popped, top,
    transaction_ended, transaction_started, undo_popped, undo_pushed,
};
use crate::indent::AutoindentRequest;
use crate::local::full_ranges;
use crate::operation::{
    EditModel, OperationModel, SelectionModel, SelectionSetId, SelectionSetModel, bytes_of,
    lamport_timestamp_of,
};
use crate::operation_queue::enqueued;
use crate::point::{point_difference, point_sum};
use crate::rope::point_at;
use crate::selection_map::{Selections, activated};
use crate::snapshot::SnapshotModel;
use crate::syntax::{Language, TreeEdit, edited_tree};
use crate::undo::{Undo, undo_applied};
use crate::undo_map::{UndoLog, largest_count, log_with, undos_of};
use crate::weave::{edited, local_plan, remote_ok, remote_plan};

verus! {

/// What a buffer means.
#[verifier::ext_equal]
pub ghost struct State {
    pub cells: Seq<Cell>,
    pub log: UndoLog,
    pub version: Version,
    pub saved_version: Version,
    pub saved_mtime: u64,
    pub last_edit: Local,
    pub history: HistoryModel,
    pub file: Option<FileModel>,
    pub language: Option<Language>,
    pub tree: Option<(Tree, Version)>,
    pub parsing: bool,
    pub sync_parse_timeout: u64,
    pub parse_count: int,
    pub requests: Seq<Arc<AutoindentRequest>>,
    pub pending_autoindent: bool,
    pub selections: Selections,
    pub deferred_ops: Seq<OperationModel>,
    pub deferred_replicas: Set<ReplicaId>,
    pub replica_id: ReplicaId,
    pub remote_id: u64,
    pub local_clock: Local,
    pub lamport_clock: Lamport,
}

impl State {
    /// The text that a reader sees.
    pub open spec fn text(self) -> Seq<u8> {
        visible_text(self.cells)
    }

    /// There are changes that have not been saved, or nothing to save them to.
    pub open spec fn is_dirty(self) -> bool {
        exceeds(self.version, self.saved_version) || match self.file {
            Some(file) => file.deleted,
            None => false,
        }
    }

    /// The file has changed on disk while there are changes that have not been
    /// saved.
    pub open spec fn has_conflict(self) -> bool {
        exceeds(self.version, self.saved_version) && match self.file {
            Some(file) => file.mtime > self.saved_mtime,
            None => false,
        }
    }

    /// What has changed since an earlier version.
    pub open spec fn changes_since(self, since: Version) -> Seq<Span> {
        edits_of(Comparison { cells: self.cells, since, log: self.log }, self.version)
    }

    /// There are clock values left.
    pub open spec fn can_tick(self) -> bool {
        &&& self.local_clock.value < u32::MAX
        &&& self.lamport_clock.value < u32::MAX
    }
}

/// The edit of a syntax tree that stands for a change of the text.
pub open spec fn tree_edit(span: Span, text: Seq<u8>, old_text: Seq<u8>) -> TreeEdit {
    TreeEdit {
        start_byte: span.new.0 as usize,
        old_end_byte: (span.new.0 + (span.old.1 - span.old.0)) as usize,
        new_end_byte: span.new.1 as usize,
        start_position: point_at(text, span.new.0),
        old_end_position: point_sum(
            point_at(text, span.new.0),
            point_difference(point_at(old_text, span.old.1), point_at(old_text, span.old.0)),
        ),
        new_end_position: point_at(text, span.new.1),
    }
}

/// A syntax tree after the first `n` changes.
pub open spec fn tree_after(
    tree: Tree,
    spans: Seq<Span>,
    text: Seq<u8>,
    old_text: Seq<u8>,
    n: int,
) -> Tree
    decreases n,
{
    if n <= 0 {
        tree
    } else {
        edited_tree(
            tree_after(tree, spans, text, old_text, n - 1),
            tree_edit(spans[n - 1], text, old_text),
        )
    }
}

/// The syntax tree of a buffer, brought up to date.
pub open spec fn current_tree(s: State) -> Option<Tree> {
    match s.tree {
        Some(pair) => {
            let w = Comparison { cells: s.cells, since: pair.1, log: s.log };
            let spans = edits_of(w, s.version);
            Some(tree_after(pair.0, spans, s.text(), w.old_text(w.len()), spans.len() as int))
        },
        None => None,
    }
}

/// The buffer once its syntax tree has been brought up to date.
pub open spec fn interpolated(s: State) -> State {
    State {
        tree: match current_tree(s) {
            Some(tree) => Some((tree, s.version)),
            None => None,
        },
        ..s
    }
}

/// The buffer as it is.
pub open spec fn snapshot_of(s: State) -> SnapshotModel {
    SnapshotModel {
        text: s.text(),
        cells: s.cells,
        version: s.version,
        tree: current_tree(s),
        is_parsing: s.parsing,
        language: s.language,
    }
}

/// The buffer once a parse has been asked for, if there is a language and none
/// is on the way. The syntax tree that the parse starts from is kept.
pub open spec fn reparsing(s: State) -> State {
    if s.language is Some && !s.parsing {
        State { parsing: true, ..interpolated(s) }
    } else {
        s
    }
}

/// What is asked for to get the text parsed.
pub open spec fn reparse_effects(s: State) -> Seq<EffectModel> {
    match s.language {
        Some(language) => if s.parsing {
            Seq::empty()
        } else {
            seq![EffectModel::Parse {
                text: s.text(),
                old_tree: current_tree(s),
                version: s.version,
                language,
            }]
        },
        None => Seq::empty(),
    }
}

/// What is reported after an edit.
pub open spec fn edit_events(was_dirty: bool) -> Seq<EffectModel> {
    if was_dirty {
        seq![EffectModel::Emit(Event::Edited)]
    } else {
        seq![EffectModel::Emit(Event::Edited), EffectModel::Emit(Event::Dirtied)]
    }
}

/// The buffer after something that may have changed its text since `since`.
pub open spec fn changed(s: State, since: Version) -> State {
    if s.changes_since(since).len() > 0 {
        reparsing(s)
    } else {
        s
    }
}

/// What is reported, and asked for, after something that may have changed the
/// text since `since`.
pub open spec fn change_effects(s: State, since: Version, was_dirty: bool) -> Seq<EffectModel> {
    seq![EffectModel::Notify] + if s.changes_since(since).len() > 0 {
        edit_events(was_dirty) + reparse_effects(s)
    } else {
        Seq::empty()
    }
}

/// The other replicas are told of an operation if there is a file.
pub open spec fn send_effects(s: State, op: OperationModel) -> Seq<EffectModel> {
    if s.file is Some {
        seq![EffectModel::Send(op)]
    } else {
        Seq::empty()
    }
}

/// The selections of a set, to be kept with a transaction.
pub open spec fn kept_of(s: State, set_id: Option<SelectionSetId>) -> Option<
    (SelectionSetId, Seq<SelectionModel>),
> {
    match set_id {
        Some(id) => Some((id, s.selections[id].selections)),
        None => None,
    }
}

/// There is such a set of selections, if one is named.
pub open spec fn names_set(s: State, set_id: Option<SelectionSetId>) -> bool {
    match set_id {
        Some(id) => s.selections.contains_key(id),
        None => true,
    }
}

/// The buffer once a transaction has been started.
pub open spec fn started(s: State, set_id: Option<SelectionSetId>, now: u64) -> State {
    State {
        history: transaction_started(s.history, s.version, s.is_dirty(), kept_of(s, set_id), now),
        ..s
    }
}

/// The buffer once a transaction has been ended.
pub open spec fn ended(s: State, set_id: Option<SelectionSetId>, now: u64) -> State {
    let kept = kept_of(s, set_id);
    let left = State { history: transaction_ended(s.history, kept, now), ..s };
    match ended_transaction(s.history, kept, now) {
        Some(t) => changed(State { history: grouped(left.history), ..left }, t.start),
        None => left,
    }
}

/// What is reported, and asked for, when a transaction has been ended.
pub open spec fn ended_effects(s: State, set_id: Option<SelectionSetId>, now: u64) -> Seq<
    EffectModel,
> {
    let kept = kept_of(s, set_id);
    let left = State { history: transaction_ended(s.history, kept, now), ..s };
    match ended_transaction(s.history, kept, now) {
        Some(t) => change_effects(
            State { history: grouped(left.history), ..left },
            t.start,
            t.buffer_was_dirty,
        ),
        None => Seq::empty(),
    }
}

/// The ranges of an edit, those that do nothing left out and those that touch
/// joined.
pub open spec fn coalesced(ranges: Seq<(int, int)>, inserts: bool, n: int) -> Seq<(int, int)>
    decreases n,
{
    if n <= 0 {
        Seq::empty()
    } else {
        let found = coalesced(ranges, inserts, n - 1);
        let range = ranges[n - 1];
        if !inserts && range.0 >= range.1 {
            found
        } else if found.len() > 0 && found.last().1 >= range.0 {
            found.update(
                found.len() - 1,
                (
                    found.last().0,
                    if found.last().1 > range.1 {
                        found.last().1
                    } else {
                        range.1
                    },
                ),
            )
        } else {
            found.push(range)
        }
    }
}

/// The timestamp of the next edit.
pub open spec fn next_timestamp(s: State) -> InsertionTimestamp {
    InsertionTimestamp {
        replica_id: s.replica_id,
        local: s.local_clock.value,
        lamport: s.lamport_clock.value,
    }
}

/// The text of an edit; none if there is nothing to insert.
pub open spec fn inserted_text(text: Seq<char>) -> Option<Seq<char>> {
    if encode_utf8(text).len() > 0 {
        Some(text)
    } else {
        None
    }
}

/// The operation that stands for an edit of the visible text.
pub open spec fn edit_operation(s: State, ranges: Seq<(int, int)>, text: Seq<char>) -> EditModel {
    EditModel {
        timestamp: next_timestamp(s),
        version: s.version,
        ranges: full_ranges(s.cells, ranges),
        new_text: inserted_text(text),
    }
}

/// The buffer once the visible text has been edited within a transaction, and
/// the edit added to it.
pub open spec fn edited_within(s: State, ranges: Seq<(int, int)>, text: Seq<char>) -> State {
    let edit = edit_operation(s, ranges, text);
    let id = local_of(edit.timestamp);
    State {
        cells: edited(
            s.cells,
            local_plan(s.cells, ranges),
            edit.timestamp,
            bytes_of(edit.new_text),
        ),
        local_clock: Local { value: (s.local_clock.value + 1) as u32, ..s.local_clock },
        lamport_clock: Lamport { value: (s.lamport_clock.value + 1) as u32, ..s.lamport_clock },
        history: undo_pushed(filing(s.history, edit), id),
        last_edit: id,
        version: observing(s.version, id),
        ..s
    }
}

/// The buffer when an edit of ranges begins: the syntax tree is brought up to
/// date first if the lines are to be indented.
pub open spec fn prepared(s: State, ranges: Seq<(int, int)>, autoindent: bool) -> State {
    if ranges.len() > 0 && autoindent && s.language is Some {
        interpolated(s)
    } else {
        s
    }
}

/// The buffer after an edit of the visible text, but for the requests for
/// indentation, which are given.
pub open spec fn edit_applied(
    s: State,
    ranges: Seq<(int, int)>,
    text: Seq<char>,
    now: u64,
    requests: Seq<Arc<AutoindentRequest>>,
) -> State {
    if ranges.len() == 0 {
        s
    } else {
        let begun = started(State { pending_autoindent: false, ..s }, None, now);
        let done = State { requests, ..edited_within(begun, ranges, text) };
        ended(done, None, now)
    }
}

/// What is reported, asked for and sent after an edit of the visible text.
pub open spec fn edit_effects(
    s: State,
    ranges: Seq<(int, int)>,
    text: Seq<char>,
    now: u64,
    requests: Seq<Arc<AutoindentRequest>>,
) -> Seq<EffectModel> {
    if ranges.len() == 0 {
        Seq::empty()
    } else {
        let begun = started(State { pending_autoindent: false, ..s }, None, now);
        let done = State { requests, ..edited_within(begun, ranges, text) };
        ended_effects(done, None, now) + send_effects(
            s,
            OperationModel::Edit(edit_operation(s, ranges, text)),
        )
    }
}

/// An edit of another replica names places that are there, and there is room for
/// it.
pub open spec fn edit_fits(s: State, edit: EditModel) -> bool {
    edit.ranges.len() > 0 ==> {
        &&& remote_ok(
            s.cells,
            s.log,
            edit.version,
            lamport_of(edit.timestamp),
            edit.ranges,
            bytes_of(edit.new_text),
        )
        &&& edit.timestamp.local < u32::MAX
        &&& edit.timestamp.lamport < u32::MAX
        &&& s.lamport_clock.value < u32::MAX
    }
}

/// The operation can be applied: it names places that are there, and the clocks
/// can be moved past it.
pub open spec fn op_fits(s: State, op: OperationModel) -> bool {
    match op {
        OperationModel::Edit(edit) => observes(s.version, local_of(edit.timestamp)) || edit_fits(
            s,
            edit,
        ),
        OperationModel::Undo { undo, lamport } => observes(s.version, undo.id) || (
        undo.ranges.len() > 0 && lamport.value < u32::MAX && s.lamport_clock.value < u32::MAX),
        _ => lamport_timestamp_of(op).value < u32::MAX && s.lamport_clock.value < u32::MAX,
    }
}

/// The buffer once an edit that another replica made has been applied to its
/// text.
pub open spec fn remote_edit_applied(s: State, edit: EditModel) -> State {
    if edit.ranges.len() == 0 {
        s
    } else {
        State {
            cells: edited(
                s.cells,
                remote_plan(
                    s.cells,
                    s.log,
                    edit.version,
                    lamport_of(edit.timestamp),
                    edit.ranges,
                ),
                edit.timestamp,
                bytes_of(edit.new_text),
            ),
            local_clock: local_after(s.local_clock, local_of(edit.timestamp)),
            lamport_clock: lamport_after(s.lamport_clock, lamport_of(edit.timestamp)),
            ..s
        }
    }
}

/// The buffer once an undo has been applied to its text.
pub open spec fn undo_state(s: State, undo: Undo) -> State {
    let log = log_with(s.log, undo.id, undo.counts);
    State { log, cells: undo_applied(s.cells, log, undo), ..s }
}

/// The buffer once an operation of another replica has been applied. One that
/// has been seen before changes nothing.
pub open spec fn applied(s: State, op: OperationModel) -> State {
    match op {
        OperationModel::Edit(edit) => if observes(s.version, local_of(edit.timestamp)) {
            s
        } else {
            let done = remote_edit_applied(s, edit);
            State {
                version: observing(s.version, local_of(edit.timestamp)),
                history: filing(s.history, edit),
                ..done
            }
        },
        OperationModel::Undo { undo, lamport } => if observes(s.version, undo.id) {
            s
        } else {
            State {
                version: observing(s.version, undo.id),
                lamport_clock: lamport_after(s.lamport_clock, lamport),
                ..undo_state(s, undo)
            }
        },
        OperationModel::UpdateSelections { set_id, selections, lamport } => State {
            selections: match selections {
                Some(selections) => s.selections.insert(
                    set_id,
                    SelectionSetModel {
                        selections,
                        active: s.selections.contains_key(set_id) && s.selections[set_id].active,
                    },
                ),
                None => s.selections.remove(set_id),
            },
            lamport_clock: lamport_after(s.lamport_clock, lamport),
            ..s
        },
        OperationModel::SetActiveSelections { set_id, lamport } => State {
            selections: activated(s.selections, lamport.replica_id, set_id),
            lamport_clock: lamport_after(s.lamport_clock, lamport),
            ..s
        },
    }
}

/// The version has seen everything that the selections refer to.
pub open spec fn selections_known(v: Version, selections: Seq<SelectionModel>) -> bool {
    forall|i: int|
        0 <= i < selections.len() ==> includes(v, (#[trigger] selections[i]).start.version)
            && includes(v, selections[i].end.version)
}

/// Everything that the operation builds on is there, and no earlier operation
/// of its replica is waiting.
pub open spec fn can_apply(s: State, op: OperationModel) -> bool {
    &&& !s.deferred_replicas.contains(lamport_timestamp_of(op).replica_id)
    &&& match op {
        OperationModel::Edit(edit) => includes(s.version, edit.version),
        OperationModel::Undo { undo, lamport } => includes(s.version, undo.version),
        OperationModel::UpdateSelections { set_id, selections, lamport } => match selections {
            Some(selections) => selections_known(s.version, selections),
            None => true,
        },
        OperationModel::SetActiveSelections { set_id, lamport } => match set_id {
            Some(id) => s.selections.contains_key(id),
            None => true,
        },
    }
}

/// How far a run of operations has got: the buffer, the operations that have to
/// wait, and whether one of them did not fit.
#[verifier::ext_equal]
pub ghost struct Run {
    pub state: State,
    pub waiting: Seq<OperationModel>,
    pub failed: bool,
}

/// The first `n` of some operations, each applied if it can be, or set aside.
pub open spec fn run_ops(s: State, ops: Seq<OperationModel>, n: int) -> Run
    decreases n,
{
    if n <= 0 {
        Run { state: s, waiting: Seq::empty(), failed: false }
    } else {
        let run = run_ops(s, ops, n - 1);
        let op = ops[n - 1];
        if run.failed {
            run
        } else if can_apply(run.state, op) {
            if op_fits(run.state, op) {
                Run { state: applied(run.state, op), ..run }
            } else {
                Run { failed: true, ..run }
            }
        } else {
            Run {
                state: State {
                    deferred_replicas: run.state.deferred_replicas.insert(
                        lamport_timestamp_of(op).replica_id,
                    ),
                    ..run.state
                },
                waiting: run.waiting.push(op),
                ..run
            }
        }
    }
}

/// The waiting operations, each applied if it can be now.
pub open spec fn flush_run(s: State) -> Run {
    let ops = s.deferred_ops;
    run_ops(
        State { deferred_replicas: Set::empty(), deferred_ops: Seq::empty(), ..s },
        ops,
        ops.len() as int,
    )
}

/// The buffer once the waiting operations have been tried again.
pub open spec fn flushed(s: State) -> State {
    let run = flush_run(s);
    if run.failed {
        run.state
    } else {
        State { deferred_ops: enqueued(run.state.deferred_ops, run.waiting), ..run.state }
    }
}

/// The first pass over the operations of other replicas.
pub open spec fn first_run(s: State, ops: Seq<OperationModel>) -> Run {
    run_ops(State { pending_autoindent: false, ..s }, ops, ops.len() as int)
}

/// The buffer once the operations that have to wait have been queued.
pub open spec fn run_queued(run: Run) -> State {
    State { deferred_ops: enqueued(run.state.deferred_ops, run.waiting), ..run.state }
}

/// One of the operations does not fit.
pub open spec fn ops_fail(s: State, ops: Seq<OperationModel>) -> bool {
    let run = first_run(s, ops);
    run.failed || flush_run(run_queued(run)).failed
}

/// The buffer once operations of other replicas have been applied or set aside.
pub open spec fn ops_applied(s: State, ops: Seq<OperationModel>) -> State {
    let run = first_run(s, ops);
    if run.failed {
        run.state
    } else if flush_run(run_queued(run)).failed {
        flushed(run_queued(run))
    } else {
        changed(flushed(run_queued(run)), s.version)
    }
}

/// What is reported, and asked for, after operations of other replicas.
pub open spec fn ops_effects(s: State, ops: Seq<OperationModel>) -> Seq<EffectModel> {
    if ops_fail(s, ops) {
        Seq::empty()
    } else {
        change_effects(flushed(run_queued(first_run(s, ops))), s.version, s.is_dirty())
    }
}

/// The number of undos and redos of each of the first `n` edits, with one more.
pub open spec fn next_counts(log: UndoLog, edits: Seq<Local>, n: int) -> Map<Local, u32>
    decreases n,
{
    if n <= 0 {
        Map::empty()
    } else {
        next_counts(log, edits, n - 1).insert(
            edits[n - 1],
            next_count(largest_count(undos_of(log, edits[n - 1]))),
        )
    }
}

/// One undo or redo more.
pub open spec fn next_count(count: u32) -> u32 {
    if count == u32::MAX {
        u32::MAX
    } else {
        (count + 1) as u32
    }
}

/// The undo operation for a transaction.
pub open spec fn undo_of(s: State, t: TransactionModel) -> Undo {
    Undo {
        id: s.local_clock,
        counts: next_counts(s.log, t.edits, t.edits.len() as int),
        ranges: t.ranges,
        version: t.start,
    }
}

/// The buffer once a transaction has been undone or redone.
pub open spec fn undone_or_redone(s: State, t: TransactionModel) -> State {
    let undo = undo_of(s, t);
    let done = undo_state(s, undo);
    State {
        local_clock: Local { value: (s.local_clock.value + 1) as u32, ..s.local_clock },
        lamport_clock: Lamport { value: (s.lamport_clock.value + 1) as u32, ..s.lamport_clock },
        version: observing(s.version, undo.id),
        ..done
    }
}

/// The other replicas are told of the undo.
pub open spec fn undo_effects(s: State, t: TransactionModel) -> Seq<EffectModel> {
    send_effects(
        s,
        OperationModel::Undo { undo: undo_of(s, t), lamport: s.lamport_clock },
    )
}

/// The buffer once a set of selections has been given others.
pub open spec fn selections_updated(
    s: State,
    set_id: SelectionSetId,
    selections: Seq<SelectionModel>,
) -> State {
    State {
        selections: s.selections.insert(
            set_id,
            SelectionSetModel { selections, active: s.selections[set_id].active },
        ),
        lamport_clock: Lamport { value: (s.lamport_clock.value + 1) as u32, ..s.lamport_clock },
        ..s
    }
}

/// What is reported and sent when a set of selections has been given others.
pub open spec fn selections_effects(
    s: State,
    set_id: SelectionSetId,
    selections: Option<Seq<SelectionModel>>,
) -> Seq<EffectModel> {
    seq![EffectModel::Notify] + send_effects(
        s,
        OperationModel::UpdateSelections { set_id, selections, lamport: s.lamport_clock },
    )
}

/// The buffer once the selections kept with a transaction have been restored.
pub open spec fn restored(s: State, kept: Option<(SelectionSetId, Seq<SelectionModel>)>) -> State {
    match kept {
        Some(pair) => if s.selections.contains_key(pair.0) {
            selections_updated(s, pair.0, pair.1)
        } else {
            s
        },
        None => s,
    }
}

/// What is reported and sent when the selections kept with a transaction are
/// restored.
pub open spec fn restored_effects(
    s: State,
    kept: Option<(SelectionSetId, Seq<SelectionModel>)>,
) -> Seq<EffectModel> {
    match kept {
        Some(pair) => if s.selections.contains_key(pair.0) {
            selections_effects(s, pair.0, Some(pair.1))
        } else {
            Seq::empty()
        },
        None => Seq::empty(),
    }
}

/// The buffer once the last transaction has been undone, before anything is
/// reported.
pub open spec fn undone_once(s: State) -> State {
    let popped = State { history: undo_popped(s.history), ..s };
    match top(s.history.undo_stack) {
        Some(t) => restored(undone_or_redone(popped, t), t.selections_before),
        None => popped,
    }
}

/// What is sent when the last transaction is undone.
pub open spec fn undone_once_effects(s: State) -> Seq<EffectModel> {
    let popped = State { history: undo_popped(s.history), ..s };
    match top(s.history.undo_stack) {
        Some(t) => undo_effects(popped, t) + restored_effects(
            undone_or_redone(popped, t),
            t.selections_before,
        ),
        None => Seq::empty(),
    }
}

/// The buffer once the last undone transaction has been redone, before anything
/// is reported.
pub open spec fn redone_once(s: State) -> State {
    let popped = State { history: redo_popped(s.history), ..s };
    match top(s.history.redo_stack) {
        Some(t) => restored(undone_or_redone(popped, t), t.selections_after),
        None => popped,
    }
}

/// What is sent when the last undone transaction is redone.
pub open spec fn redone_once_effects(s: State) -> Seq<EffectModel> {
    let popped = State { history: redo_popped(s.history), ..s };
    match top(s.history.redo_stack) {
        Some(t) => undo_effects(popped, t) + restored_effects(
            undone_or_redone(popped, t),
            t.selections_after,
        ),
        None => Seq::empty(),
    }
}

} // verus!
