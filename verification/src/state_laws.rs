//! What single operations do to a buffer and tell others of.

use std::sync::Arc;

use tree_sitter::Tree;
use vstd::prelude::*;
use vstd::utf8::*;

use crate::buffer::{copied, new_state};
use crate::buffer_diff::{ChangeTag, change_edit, made, used_up};
use crate::buffer_edit::{
    edited_places, inserted_place, joined_ranges, moved_by, request_for, requests_after,
};
use crate::buffer_file::saved;
use crate::buffer_proto::{received, set_named, sets_say};
use crate::buffer_selections::ticked;
use crate::buffer_text::stands_at;
use crate::clock::{
    Lamport, Local, ReplicaId, Version, after, includes, lamport_after, local_after, observes,
    same_version,
};
use crate::content::{Content, anchor_offset, anchor_summary, entry_anchor, entry_for};
use crate::context::EffectModel;
use crate::document::{Cell, visible_text};
use crate::edit::{Edit, delta_of};
use crate::edits::{Comparison, Span, describes};
use crate::file::FileModel;
use crate::group_laws::{law_joined_transaction_ends_as_the_newest, named_right};
use crate::history::{HistoryModel, transaction_ended};
use crate::indent::AutoindentRequest;
use crate::operation::{
    AnchorModel, OperationModel, SelectionModel, SelectionSetId, lamport_timestamp_of,
};
use crate::point::{Point, point_le, point_lt, point_sum};
use crate::proto;
use crate::rope::{Bias, line_end, point_at};
use crate::snapshot::{blank_line, is_white_space, line_chars};
use crate::state::{
    State, applied, can_apply, change_effects, changed, coalesced, current_tree, edit_effects,
    edit_operation, edited_within, ended, ended_effects, first_run, flushed, interpolated,
    names_set, op_fits, ops_applied, ops_effects, ops_fail, prepared, redone_once_effects,
    restored_effects, run_queued, snapshot_of, started, tree_after, undo_of, undone_once_effects,
};
use crate::syntax::{Language, grammar_of, tree_for};
use crate::text_laws::{is_line, is_row_start, law_line_end, lemma_row};
use crate::undo::Undo;
use crate::undo_map::{largest_count, undos_of};

verus! {

/// A new buffer shows the text that it starts from, as of before all time, has seen
/// nothing, and has nothing to undo, to save or to wait for. Its first operation is
/// the first one of its replica.
pub proof fn law_new_buffer(
    replica_id: ReplicaId,
    history: HistoryModel,
    file: Option<FileModel>,
    remote_id: u64,
    language: Option<Language>,
)
    ensures
        ({
            let s = new_state(replica_id, history, file, remote_id, language);
            let base = encode_utf8(history.base_text);
            &&& s.cells.len() == base.len()
            &&& forall|i: int|
                0 <= i < base.len() ==> {
                    let c = #[trigger] s.cells[i];
                    &&& c.byte == base[i]
                    &&& c.visible
                    &&& c.deletions == Set::<Local>::empty()
                    &&& c.timestamp.replica_id == 0
                    &&& c.timestamp.local == 0
                    &&& c.timestamp.lamport == 0
                }
            &&& s.version == Map::<ReplicaId, u32>::empty()
            &&& s.saved_version == s.version
            &&& s.history == history
            &&& s.file == file
            &&& s.remote_id == remote_id
            &&& s.language == language
            &&& s.replica_id == replica_id
            &&& s.local_clock == (Local { replica_id, value: 1 })
            &&& s.lamport_clock == (Lamport { replica_id, value: 1 })
            &&& s.deferred_ops.len() == 0
            &&& s.selections.dom() == Set::<SelectionSetId>::empty()
            &&& !s.parsing
            &&& s.parse_count == 0
            &&& s.tree is None
            &&& file matches Some(file) ==> s.saved_mtime == file.mtime
        }),
{
    let s = new_state(replica_id, history, file, remote_id, language);
    assert(s.selections.dom() =~= Set::<SelectionSetId>::empty());
}

/// A copy of a buffer is like it, but nothing that the first one has asked for comes
/// back to it.
pub proof fn law_copy(s: State)
    ensures
        ({
            let copy = copied(s);
            &&& copy.cells == s.cells
            &&& copy.log == s.log
            &&& copy.version == s.version
            &&& copy.saved_version == s.saved_version
            &&& copy.saved_mtime == s.saved_mtime
            &&& copy.history == s.history
            &&& copy.selections == s.selections
            &&& copy.deferred_ops == s.deferred_ops
            &&& copy.deferred_replicas == s.deferred_replicas
            &&& copy.local_clock == s.local_clock
            &&& copy.lamport_clock == s.lamport_clock
            &&& copy.tree == s.tree
            &&& copy.file == s.file
            &&& copy.language == s.language
            &&& copy.parse_count == s.parse_count
            &&& !copy.parsing
            &&& copy.requests.len() == 0
            &&& !copy.pending_autoindent
        }),
{
}

/// The operation that stands for an edit is named by the clocks of the replica, knows
/// what the buffer has seen, has a range for each range of the edit, and a text if
/// there is anything to insert.
pub proof fn law_edit_operation(s: State, ranges: Seq<(int, int)>, text: Seq<char>)
    ensures
        ({
            let edit = edit_operation(s, ranges, text);
            &&& edit.timestamp.replica_id == s.replica_id
            &&& edit.timestamp.local == s.local_clock.value
            &&& edit.timestamp.lamport == s.lamport_clock.value
            &&& edit.version == s.version
            &&& edit.ranges.len() == ranges.len()
            &&& encode_utf8(text).len() > 0 ==> edit.new_text == Some(text)
            &&& encode_utf8(text).len() == 0 ==> edit.new_text is None
        }),
{
}

/// An edit is filed under its name, moves both clocks on by one, and is the last edit
/// that was made.
pub proof fn law_edit_is_filed(s: State, ranges: Seq<(int, int)>, text: Seq<char>)
    requires
        s.local_clock.value < u32::MAX,
        s.lamport_clock.value < u32::MAX,
        s.local_clock.replica_id == s.replica_id,
    ensures
        ({
            let now = edited_within(s, ranges, text);
            let edit = edit_operation(s, ranges, text);
            &&& now.history.ops.contains_key(s.local_clock)
            &&& now.history.ops[s.local_clock] == edit
            &&& now.local_clock.value == s.local_clock.value + 1
            &&& now.lamport_clock.value == s.lamport_clock.value + 1
            &&& now.last_edit == s.local_clock
            &&& now.selections == s.selections
            &&& now.saved_version == s.saved_version
            &&& now.history.redo_stack == s.history.redo_stack
        }),
{
}

/// An edit is sent to the other replicas, if there is a file, after all else has been
/// reported; an edit of nothing is not.
pub proof fn law_edit_is_sent(
    s: State,
    ranges: Seq<(int, int)>,
    text: Seq<char>,
    now: u64,
    requests: Seq<Arc<AutoindentRequest>>,
)
    ensures
        ({
            let effects = edit_effects(s, ranges, text, now, requests);
            &&& ranges.len() == 0 ==> effects.len() == 0
            &&& ranges.len() > 0 && s.file is Some ==> effects.len() > 0 && effects[effects.len()
                - 1] == EffectModel::Send(OperationModel::Edit(edit_operation(s, ranges, text)))
        }),
{
}

/// While a transaction goes on within another one, or if nothing was edited, nothing
/// is reported when it ends. Else it is what has changed since the transaction
/// started.
pub proof fn law_end_of_a_transaction_is_reported(
    s: State,
    set_id: Option<SelectionSetId>,
    now: u64,
)
    requires
        s.history.undo_stack.len() > 0,
    ensures
        ({
            let t = s.history.undo_stack[s.history.undo_stack.len() - 1];
            let effects = ended_effects(s, set_id, now);
            &&& s.history.depth != 1 || t.ranges.len() == 0 ==> effects.len() == 0
            &&& s.history.depth == 1 && t.ranges.len() > 0 ==> effects.len() > 0 && effects[0]
                == EffectModel::Notify
            &&& s.history.depth == 1 && t.ranges.len() > 0 && s.changes_since(t.start).len() > 0
                ==> effects.len() > 1 && effects[1] == EffectModel::Emit(
                crate::context::Event::Edited,
            ) && (!t.buffer_was_dirty ==> effects.len() > 2 && effects[2] == EffectModel::Emit(
                crate::context::Event::Dirtied,
            ))
        }),
{
}

/// An undo is named by the clock of the replica, counts each edit of the transaction
/// once more, and knows what the transaction started from.
pub proof fn law_undo_operation(s: State, t: crate::history::TransactionModel, i: int)
    requires
        0 <= i < t.edits.len(),
        largest_count(undos_of(s.log, t.edits[i])) < u32::MAX,
    ensures
        ({
            let undo = undo_of(s, t);
            &&& undo.id == s.local_clock
            &&& undo.version == t.start
            &&& undo.ranges == t.ranges
            &&& undo.counts.contains_key(t.edits[i])
            &&& undo.counts[t.edits[i]] == largest_count(undos_of(s.log, t.edits[i])) + 1
        }),
{
    crate::transaction_laws::lemma_counts(s.log, t.edits, t.edits.len() as int);
    lemma_next_counts(s.log, t.edits, t.edits.len() as int, i);
}

proof fn lemma_next_counts(log: crate::undo_map::UndoLog, edits: Seq<Local>, n: int, i: int)
    requires
        0 <= i < n <= edits.len(),
        largest_count(undos_of(log, edits[i])) < u32::MAX,
    ensures
        crate::state::next_counts(log, edits, n).contains_key(edits[i]),
        crate::state::next_counts(log, edits, n)[edits[i]] == largest_count(
            undos_of(log, edits[i]),
        ) + 1,
    decreases n,
{
    if i < n - 1 {
        lemma_next_counts(log, edits, n - 1, i);
    }
}

/// The other replicas are told of an undo and of a redo, if there is a file, before
/// they are told of selections that come back with it.
pub proof fn law_undo_is_sent(s: State)
    requires
        s.file is Some,
    ensures
        s.history.undo_stack.len() > 0 ==> {
            let t = s.history.undo_stack[s.history.undo_stack.len() - 1];
            &&& undone_once_effects(s).len() > 0
            &&& undone_once_effects(s)[0] == EffectModel::Send(
                OperationModel::Undo { undo: undo_of(s, t), lamport: s.lamport_clock },
            )
        },
        s.history.redo_stack.len() > 0 ==> {
            let t = s.history.redo_stack[s.history.redo_stack.len() - 1];
            &&& redone_once_effects(s).len() > 0
            &&& redone_once_effects(s)[0] == EffectModel::Send(
                OperationModel::Undo { undo: undo_of(s, t), lamport: s.lamport_clock },
            )
        },
        s.history.undo_stack.len() == 0 ==> undone_once_effects(s).len() == 0,
        s.history.redo_stack.len() == 0 ==> redone_once_effects(s).len() == 0,
{
}

/// Selections that another replica tells of take the place of those of its set, or
/// take the set away; a set stays active if it was.
pub proof fn law_selections_are_taken_over(
    s: State,
    set_id: SelectionSetId,
    selections: Option<Seq<SelectionModel>>,
    lamport: Lamport,
    id: SelectionSetId,
)
    ensures
        ({
            let op = OperationModel::UpdateSelections { set_id, selections, lamport };
            let now = applied(s, op);
            &&& id != set_id ==> (now.selections.contains_key(id) <==> s.selections.contains_key(
                id,
            )) && (s.selections.contains_key(id) ==> now.selections[id] == s.selections[id])
            &&& selections is None ==> !now.selections.contains_key(set_id)
            &&& selections is Some ==> {
                &&& now.selections.contains_key(set_id)
                &&& now.selections[set_id].selections == selections->0
                &&& now.selections[set_id].active <==> s.selections.contains_key(set_id)
                    && s.selections[set_id].active
            }
            &&& now.cells == s.cells
            &&& now.version == s.version
        }),
{
}

/// A set that another replica makes active is the only active one of that replica.
pub proof fn law_activation_is_taken_over(
    s: State,
    set_id: Option<SelectionSetId>,
    lamport: Lamport,
    id: SelectionSetId,
)
    requires
        s.selections.contains_key(id),
    ensures
        ({
            let now = applied(s, OperationModel::SetActiveSelections { set_id, lamport });
            &&& now.selections.contains_key(id)
            &&& now.selections[id].selections == s.selections[id].selections
            &&& id.replica_id == lamport.replica_id ==> (now.selections[id].active <==> set_id
                == Some(id))
            &&& id.replica_id != lamport.replica_id ==> now.selections[id].active
                == s.selections[id].active
        }),
{
}

/// A clock that has met a time is past it, and goes on with its own replica's times;
/// it never goes back.
pub proof fn law_clocks_go_on(c: Local, t: Local, l: Lamport, m: Lamport)
    requires
        t.value < u32::MAX,
        l.value < u32::MAX,
        m.value < u32::MAX,
    ensures
        local_after(c, t).replica_id == c.replica_id,
        local_after(c, t).value >= c.value,
        t.replica_id == c.replica_id ==> local_after(c, t).value > t.value,
        t.replica_id != c.replica_id ==> local_after(c, t) == c,
        lamport_after(l, m).replica_id == l.replica_id,
        lamport_after(l, m).value > l.value,
        lamport_after(l, m).value > m.value,
        lamport_after(l, m).value == l.value + 1 || lamport_after(l, m).value == m.value + 1,
        ticked(l).value == l.value + 1,
        ticked(l).replica_id == l.replica_id,
{
}

/// Of two different times one comes after the other: the larger, or that of the larger
/// replica if they are equally large.
pub proof fn law_times_are_ordered(a: Lamport, b: Lamport, c: Lamport)
    ensures
        a != b ==> (after(a, b) <==> !after(b, a)),
        !after(a, a),
        after(a, b) && after(b, c) ==> after(a, c),
        a.value > b.value ==> after(a, b),
        a.value == b.value && a.replica_id > b.replica_id ==> after(a, b),
{
}

/// Points come in the order of their rows, and within a row of their columns; a point
/// that is counted from another one on lies on a later row, or further right.
pub proof fn law_points_are_ordered(a: Point, b: Point)
    ensures
        a.row < b.row ==> point_lt(a, b),
        a.row == b.row && a.column < b.column ==> point_lt(a, b),
        point_lt(a, b) ==> !point_lt(b, a),
        a != b ==> point_lt(a, b) || point_lt(b, a),
        point_le(a, b) <==> point_lt(a, b) || a == b,
        b.row == 0 && a.column + b.column <= u32::MAX ==> point_sum(a, b).row == a.row
            && point_sum(a, b).column == a.column + b.column,
        b.row > 0 && a.row + b.row <= u32::MAX ==> point_sum(a, b).row == a.row + b.row
            && point_sum(a, b).column == b.column,
{
}

/// An edit that is reported describes a change: its bytes in the old and in the new
/// text, and the rows and columns of those in the old one. The new text is longer by
/// what has come, less what is gone.
pub proof fn law_reported_edit(edit: Edit, span: Span, old: Seq<u8>)
    requires
        describes(edit, span, old),
    ensures
        edit.old_bytes.start == span.old.0,
        edit.old_bytes.end == span.old.1,
        edit.new_bytes.start == span.new.0,
        edit.new_bytes.end == span.new.1,
        edit.old_lines.start == point_at(old, span.old.0),
        edit.old_lines.end == point_at(old, span.old.1),
        delta_of(edit) == (span.new.1 - span.new.0) - (span.old.1 - span.old.0),
{
}

/// A change of a diff leaves text that stays alone; it deletes what is to go, and
/// inserts what is to come, where the new text has got to.
pub proof fn law_change_of_a_diff(changes: Seq<(ChangeTag, usize)>, new: Seq<u8>, n: int)
    requires
        0 <= n < changes.len(),
    ensures
        ({
            let edit = change_edit(changes, new, n);
            let len = changes[n].1 as int;
            &&& changes[n].0 is Equal ==> edit.0.len() == 0
            &&& changes[n].0 is Delete ==> edit.0.len() == 1 && edit.0[0] == (
                made(changes, n),
                made(changes, n) + len,
            ) && edit.1.len() == 0
            &&& changes[n].0 is Insert ==> edit.0.len() == 1 && edit.0[0] == (
                made(changes, n),
                made(changes, n),
            ) && edit.1 == decode_utf8(new.subrange(made(changes, n), made(changes, n) + len))
            &&& made(changes, 0) == 0
            &&& used_up(changes, 0) == 0
            &&& made(changes, n + 1) == made(changes, n) + if changes[n].0 is Delete {
                0
            } else {
                len
            }
            &&& used_up(changes, n + 1) == used_up(changes, n) + if changes[n].0 is Insert {
                0
            } else {
                len
            }
        }),
{
}

/// What was inserted for a range, after its first line feed: it starts one byte past
/// the line feed and ends with the text, counted from where the ranges before it have
/// moved it.
pub proof fn law_inserted_place(ranges: Seq<(int, int)>, newline: int, new_len: int, k: int)
    requires
        0 <= k < ranges.len(),
        0 <= newline < new_len,
        0 <= ranges[k].0 <= ranges[k].1,
        0 <= moved_by(ranges, new_len, k),
        moved_by(ranges, new_len, k) + ranges[k].1 + new_len <= usize::MAX,
    ensures
        ({
            let place = inserted_place(ranges, newline, new_len, k);
            let start = moved_by(ranges, new_len, k) + ranges[k].0;
            &&& place.0.0 == start + newline + 1
            &&& place.0.1 == Bias::Left
            &&& place.1.0 == start + new_len
            &&& place.1.1 == Bias::Right
            &&& moved_by(ranges, new_len, 0) == 0
            &&& moved_by(ranges, new_len, k + 1) == moved_by(ranges, new_len, k) + (ranges[k].1
                - ranges[k].0) + new_len
        }),
{
}

/// The ranges of an edit are joined with regard to whether there is anything to
/// insert.
pub proof fn law_empty_ranges_matter_for_text(offsets: Seq<(int, int)>, text: Seq<char>)
    ensures
        encode_utf8(text).len() > 0 ==> joined_ranges(offsets, text) == coalesced(
            offsets,
            true,
            offsets.len() as int,
        ),
        encode_utf8(text).len() == 0 ==> joined_ranges(offsets, text) == coalesced(
            offsets,
            false,
            offsets.len() as int,
        ),
{
}

/// An entry of a set of anchors stands for the anchor of the same offset and bias, at
/// the version of the set.
pub proof fn law_entries_are_anchors(cells: Seq<Cell>, offset: usize, bias: Bias, v: Version)
    ensures
        entry_anchor((offset, bias), v).offset == offset,
        entry_anchor((offset, bias), v).bias == bias,
        entry_anchor((offset, bias), v).version == v,
        entry_for(cells, (offset, bias)).0 == crate::content::anchor_for(
            cells,
            v,
            offset as int,
            bias,
        ).offset,
        entry_for(cells, (offset, bias)).1 == bias,
{
}

/// A set of selections can be kept with a transaction if it is there, or if none is
/// named.
pub proof fn law_named_sets(s: State, id: SelectionSetId)
    ensures
        names_set(s, None),
        names_set(s, Some(id)) <==> s.selections.contains_key(id),
{
}

/// An operation can be applied exactly if no operation of its replica waits and all
/// that it builds on has been seen.
pub proof fn law_can_apply(s: State, op: OperationModel)
    ensures
        s.deferred_replicas.contains(lamport_timestamp_of(op).replica_id) ==> !can_apply(s, op),
        !s.deferred_replicas.contains(lamport_timestamp_of(op).replica_id) ==> match op {
            OperationModel::Edit(edit) => can_apply(s, op) <==> (forall|r: ReplicaId|
                crate::clock::seen_of(s.version, r) >= #[trigger] crate::clock::seen_of(
                    edit.version,
                    r,
                )),
            OperationModel::Undo { undo, lamport } => can_apply(s, op) <==> (forall|r: ReplicaId|
                crate::clock::seen_of(s.version, r) >= #[trigger] crate::clock::seen_of(
                    undo.version,
                    r,
                )),
            OperationModel::SetActiveSelections { set_id, lamport } => can_apply(s, op) <==> (
            set_id is None || s.selections.contains_key(set_id->0)),
            OperationModel::UpdateSelections { set_id, selections, lamport } => selections is None
                ==> can_apply(s, op),
        },
{
}

/// A buffer that is read from a message starts from the text of the message, under the
/// message's number.
pub proof fn law_buffer_from_message(
    replica_id: ReplicaId,
    message: proto::Buffer,
    file: Option<FileModel>,
    language: Option<Language>,
)
    ensures
        ({
            let s = received(replica_id, message, file, language);
            &&& s.remote_id == message.id
            &&& s.replica_id == replica_id
            &&& s.history.base_text == message.content@
            &&& s.cells.len() == encode_utf8(message.content@).len()
            &&& s.file == file
            &&& s.language == language
        }),
{
}

/// A message with the sets of selections names each of them by its replica and its
/// number, and says whether it is active.
pub proof fn law_sets_in_a_message(
    messages: Seq<proto::SelectionSetSnapshot>,
    s: State,
    i: int,
)
    requires
        sets_say(messages, s.selections),
        0 <= i < messages.len(),
    ensures
        ({
            let id = Lamport {
                replica_id: messages[i].replica_id as u16,
                value: messages[i].local_timestamp,
            };
            &&& s.selections.contains_key(id)
            &&& messages[i].is_active == s.selections[id].active
            &&& messages[i].selections@.len() == s.selections[id].selections.len()
        }),
{
    assert(set_named(messages[i]) == (Lamport {
        replica_id: messages[i].replica_id as u16,
        value: messages[i].local_timestamp,
    }));
}

/// The syntax tree of a buffer is the one that was made last, with every change since
/// its version.
pub proof fn law_current_tree(s: State)
    ensures
        s.tree is None ==> current_tree(s) is None,
        s.tree matches Some(pair) ==> {
            let w = Comparison { cells: s.cells, since: pair.1, log: s.log };
            let spans = s.changes_since(pair.1);
            current_tree(s) == Some(
                tree_after(pair.0, spans, s.text(), w.old_text(w.len()), spans.len() as int),
            )
        },
{
}

/// A snapshot holds the text, the fragments, the version, the tree and the language of
/// the buffer, and whether it is being parsed.
pub proof fn law_snapshot(s: State)
    ensures
        ({
            let snapshot = snapshot_of(s);
            &&& snapshot.text == visible_text(s.cells)
            &&& snapshot.cells == s.cells
            &&& snapshot.version == s.version
            &&& snapshot.tree == current_tree(s)
            &&& snapshot.is_parsing == s.parsing
            &&& snapshot.language == s.language
        }),
{
}

/// What has changed since a version is everything that the comparison finds, unless
/// the buffer has seen nothing else since.
pub proof fn law_changes_since(s: State, since: Version)
    ensures
        ({
            let w = Comparison { cells: s.cells, since, log: s.log };
            &&& !same_version(since, s.version) ==> s.changes_since(since) == w.spans(w.len())
            &&& same_version(since, s.version) ==> s.changes_since(since).len() == 0
        }),
{
}

/// Saving leaves the version and the time that were saved, and the new file if there is
/// one.
pub proof fn law_saved(s: State, version: Version, mtime: u64, new_file: Option<FileModel>)
    ensures
        ({
            let now = saved(s, version, mtime, new_file);
            &&& now.saved_version == version
            &&& now.saved_mtime == mtime
            &&& new_file is Some ==> now.file == new_file
            &&& new_file is None ==> now.file == s.file
            &&& now.cells == s.cells
            &&& now.version == s.version
            &&& now.history == s.history
        }),
{
}

/// After operations of other replicas it is reported what has changed since before
/// them, and that there is something to save if there was nothing before them.
pub proof fn law_operations_are_reported(s: State, ops: Seq<OperationModel>)
    ensures
        ops_fail(s, ops) ==> ops_effects(s, ops).len() == 0,
        !ops_fail(s, ops) ==> ops_effects(s, ops) == change_effects(
            flushed(run_queued(first_run(s, ops))),
            s.version,
            s.is_dirty(),
        ) && ops_applied(s, ops) == changed(flushed(run_queued(first_run(s, ops))), s.version),
{
}

/// A text stands at an offset if the bytes from there on are its bytes.
pub proof fn law_text_stands_at(b: Seq<u8>, i: int, needle: Seq<u8>)
    requires
        0 <= i <= b.len(),
    ensures
        stands_at(b, i, needle) <==> i + needle.len() <= b.len() && forall|j: int|
            0 <= j < needle.len() ==> b[i + j] == #[trigger] needle[j],
{
    if i + needle.len() <= b.len() {
        let part = b.subrange(i, i + needle.len());
        if forall|j: int| 0 <= j < needle.len() ==> b[i + j] == #[trigger] needle[j] {
            assert(part =~= needle);
        }
        if part == needle {
            assert forall|j: int| 0 <= j < needle.len() implies b[i + j] == #[trigger] needle[
                j
            ] by {
                assert(part[j] == needle[j]);
            }
        }
    }
}

/// A row is blank if there is nothing but white space between its start and its end.
pub proof fn law_blank_row(b: Seq<u8>, row: int, start: int, end: int)
    requires
        is_row_start(b, row, start),
        is_line(b, start, end),
    ensures
        line_chars(b, row) == decode_utf8(b.subrange(start, end)),
        blank_line(b, row) <==> forall|i: int|
            0 <= i < decode_utf8(b.subrange(start, end)).len() ==> is_white_space(
                #[trigger] decode_utf8(b.subrange(start, end))[i],
            ),
{
    lemma_row(b, row, start, end);
    let chars = decode_utf8(b.subrange(start, end));
    assert(line_chars(b, row) == chars);
    if blank_line(b, row) {
        assert forall|i: int| 0 <= i < chars.len() implies is_white_space(#[trigger] chars[i]) by {
            assert(is_white_space(line_chars(b, row)[i]));
        }
    }
    if forall|i: int| 0 <= i < chars.len() ==> is_white_space(#[trigger] chars[i]) {
        assert forall|i: int| 0 <= i < line_chars(b, row).len() implies is_white_space(
            #[trigger] line_chars(b, row)[i],
        ) by {
            assert(is_white_space(chars[i]));
        }
    }
}

/// An edit that asks for lines to be indented keeps the text as it was before, the
/// edited places as of then, and what was inserted after the first line feed, one part
/// for each range, as of now; nothing was inserted so if there is no line feed.
pub proof fn law_request_of_an_edit(
    request: AutoindentRequest,
    before: State,
    after: State,
    ranges: Seq<(int, int)>,
    new_bytes: Seq<u8>,
)
    requires
        request_for(request, before, after, ranges, new_bytes),
    ensures
        request.before_edit@ == snapshot_of(before),
        request.edited.0.version@ == before.version,
        request.inserted is Some <==> exists|i: int|
            0 <= i < new_bytes.len() && #[trigger] new_bytes[i] == 10,
        request.inserted matches Some(set) ==> set.0.version@ == after.version
            && set.0.entries@.len() == ranges.len(),
        request.edited.0.entries@.len() == edited_places(
            before.text(),
            new_bytes,
            ranges,
            ranges.len() as int,
        ).len(),
{
    law_line_end(new_bytes, 0);
    let newline = line_end(new_bytes, 0);
    if newline < new_bytes.len() {
        assert(new_bytes[newline] == 10);
    }
}

/// An edit asks for lines to be indented if it was told to, there is a language, and it
/// does anything; else nothing more is asked for.
pub proof fn law_requests_after_an_edit(
    requests: Seq<Arc<AutoindentRequest>>,
    before: State,
    ranges: Seq<(int, int)>,
    text: Seq<char>,
    autoindent: bool,
)
    requires
        requests_after(requests, before, ranges, text, autoindent),
    ensures
        autoindent && before.language is Some && ranges.len() > 0 ==> {
            &&& requests.len() == before.requests.len() + 1
            &&& requests.take(before.requests.len() as int) == before.requests
            &&& requests[before.requests.len() as int].before_edit@ == snapshot_of(before)
        },
        !(autoindent && before.language is Some && ranges.len() > 0) ==> requests
            == before.requests,
{
    if autoindent && before.language is Some && ranges.len() > 0 {
        assert(requests.take(before.requests.len() as int) =~= requests.drop_last());
    }
}

/// The tree is brought up to date before an edit after which lines are to be indented.
pub proof fn law_prepared(s: State, ranges: Seq<(int, int)>, autoindent: bool)
    ensures
        ranges.len() > 0 && autoindent && s.language is Some ==> prepared(s, ranges, autoindent)
            == interpolated(s),
        !(ranges.len() > 0 && autoindent && s.language is Some) ==> prepared(s, ranges, autoindent)
            == s,
{
}

/// An old tree helps a parse if it is one of the same grammar.
pub proof fn law_old_tree_of_the_same_grammar(tree: Tree, grammar: tree_sitter::Language)
    ensures
        grammar_of(tree) == grammar ==> tree_for(Some(tree), grammar) == Some(tree),
        grammar_of(tree) != grammar ==> tree_for(Some(tree), grammar) is None,
        tree_for(None, grammar) is None,
{
}

/// A summary at an anchor counts the bytes before it, and gives the point there.
pub proof fn law_summary_at_an_anchor(content: &Content, anchor: AnchorModel)
    requires
        0 <= anchor_offset(content.cells(), anchor) <= usize::MAX,
    ensures
        anchor_summary(content, anchor).bytes == anchor_offset(content.cells(), anchor),
        anchor_summary(content, anchor).lines == point_at(
            content.visible_text@,
            anchor_offset(content.cells(), anchor),
        ),
{
}

/// Selections that come back with an undo or a redo are sent to the other replicas.
pub proof fn law_restored_selections_are_sent(
    s: State,
    id: SelectionSetId,
    selections: Seq<SelectionModel>,
)
    ensures
        restored_effects(s, None).len() == 0,
        !s.selections.contains_key(id) ==> restored_effects(s, Some((id, selections))).len() == 0,
        s.selections.contains_key(id) && s.file is Some ==> {
            let effects = restored_effects(s, Some((id, selections)));
            &&& effects.len() == 2
            &&& effects[0] == EffectModel::Notify
            &&& effects[1] == EffectModel::Send(
                OperationModel::UpdateSelections {
                    set_id: id,
                    selections: Some(selections),
                    lamport: s.lamport_clock,
                },
            )
        },
{
}

/// Selections can be taken over once all that they refer to has been seen. An
/// operation about selections, or an undo with ranges, is then never refused while
/// there is time left.
pub proof fn law_selections_can_be_taken_over(
    s: State,
    set_id: SelectionSetId,
    selections: Seq<SelectionModel>,
    lamport: Lamport,
)
    requires
        !s.deferred_replicas.contains(lamport.replica_id),
    ensures
        ({
            let op = OperationModel::UpdateSelections {
                set_id,
                selections: Some(selections),
                lamport,
            };
            &&& can_apply(s, op) <==> forall|i: int|
                #![trigger selections[i]]
                0 <= i < selections.len() ==> includes(s.version, selections[i].start.version)
                    && includes(s.version, selections[i].end.version)
            &&& lamport.value < u32::MAX && s.lamport_clock.value < u32::MAX ==> op_fits(s, op)
        }),
{
}

/// An undo fits if it has ranges and there is time left, or if it has been seen.
pub proof fn law_undo_fits(s: State, undo: Undo, lamport: Lamport)
    ensures
        op_fits(s, OperationModel::Undo { undo, lamport }) <==> observes(s.version, undo.id) || (
        undo.ranges.len() > 0 && lamport.value < u32::MAX && s.lamport_clock.value < u32::MAX),
{
}

/// A transaction that ends keeps the selections of the set that it is given, as they
/// are then, also where it is joined with the one before.
pub proof fn law_end_keeps_selections(s: State, id: SelectionSetId, now: u64)
    requires
        s.history.depth == 1,
        s.history.undo_stack.len() > 0,
        s.history.undo_stack[s.history.undo_stack.len() - 1].ranges.len() > 0,
        forall|i: int|
            0 <= i < s.history.undo_stack.len() ==> named_right(
                #[trigger] s.history.undo_stack[i],
                s.history.ops,
            ),
    ensures
        ({
            let stack = ended(s, Some(id), now).history.undo_stack;
            &&& stack.len() > 0
            &&& stack[stack.len() - 1].selections_after == Some((id, s.selections[id].selections))
            &&& stack[stack.len() - 1].last_edit_at == now
        }),
{
    let kept = Some((id, s.selections[id].selections));
    let left = transaction_ended(s.history, kept, now);
    assert forall|i: int| 0 <= i < left.undo_stack.len() implies named_right(
        #[trigger] left.undo_stack[i],
        left.ops,
    ) by {
        assert(named_right(s.history.undo_stack[i], s.history.ops));
    }
    law_joined_transaction_ends_as_the_newest(left);
}

} // verus!
