//! What a buffer reports, asks for and sends, and what it keeps with its
//! transactions.

use tree_sitter::Tree;
use vstd::prelude::*;
use vstd::utf8::*;

use crate::buffer_edit::edited_places;
use crate::buffer_file::file_effects;
use crate::buffer_selections::selection_range;
use crate::buffer_syntax::{
    autoindented, parse_again, parsed_effects, parsed_state, row_indented, rows_indented,
};
use crate::clock::{ReplicaId, Version, joined, met, same_version, seen_of};
use crate::content::{anchor_offset, line_len_of};
use crate::context::EffectModel;
use crate::document::Cell;
use crate::edits::Span;
use crate::history::{TransactionModel, transaction_ended, with_edit};
use crate::operation::{EditModel, OperationModel, SelectionModel, SelectionSetId};
use crate::rope::{Bias, lemma_lines_prefix, lemma_point_sum, point_at};
use crate::selection_map::{Selections, activated, without_replica};
use crate::state::{
    State, change_effects, changed, current_tree, ended, interpolated, redone_once, reparse_effects,
    reparsing, send_effects, started, tree_after, tree_edit, undone_once,
};
use crate::syntax::edited_tree;
use crate::text_laws::is_row_start;

verus! {

/// Activating a set of selections makes it active and the others of its replica
/// inactive; it changes nothing else of any set.
pub proof fn law_one_active_set(
    sets: Selections,
    replica_id: ReplicaId,
    active: Option<SelectionSetId>,
    id: SelectionSetId,
)
    ensures
        activated(sets, replica_id, active).contains_key(id) <==> sets.contains_key(id),
        sets.contains_key(id) ==> {
            let now = activated(sets, replica_id, active)[id];
            &&& now.selections == sets[id].selections
            &&& id.replica_id != replica_id ==> now.active == sets[id].active
            &&& id.replica_id == replica_id ==> (now.active <==> active == Some(id))
        },
{
}

/// When a replica leaves, its sets of selections go, and no others.
pub proof fn law_sets_of_a_replica_go(sets: Selections, replica_id: ReplicaId, id: SelectionSetId)
    ensures
        without_replica(sets, replica_id).contains_key(id) <==> sets.contains_key(id)
            && id.replica_id != replica_id,
        sets.contains_key(id) && id.replica_id != replica_id ==> without_replica(
            sets,
            replica_id,
        )[id] == sets[id],
{
}

/// The range of a selection goes from where its one end lies to where its other end
/// lies, the other way round if it is reversed.
pub proof fn law_selection_range(cells: Seq<Cell>, selection: SelectionModel)
    ensures
        !selection.reversed ==> {
            &&& selection_range(cells, selection).0 == anchor_offset(cells, selection.start)
            &&& selection_range(cells, selection).1 == anchor_offset(cells, selection.end)
        },
        selection.reversed ==> {
            &&& selection_range(cells, selection).0 == anchor_offset(cells, selection.end)
            &&& selection_range(cells, selection).1 == anchor_offset(cells, selection.start)
        },
{
}

/// A set of selections was given others, and nothing else has changed.
pub open spec fn only_selections(
    before: Selections,
    now: Selections,
    id: SelectionSetId,
    selections: Seq<SelectionModel>,
) -> bool {
    &&& before.contains_key(id) ==> {
        &&& now.contains_key(id)
        &&& now[id].selections == selections
        &&& now[id].active == before[id].active
    }
    &&& forall|other: SelectionSetId|
        (other != id || !before.contains_key(id)) ==> (#[trigger] now.contains_key(other)
            <==> before.contains_key(other)) && (before.contains_key(other) ==> now[other]
            == before[other])
}

/// Undo gives back the selections that the last transaction started with, if their
/// set is still there, and leaves all others.
pub proof fn law_undo_restores_selections(s: State)
    requires
        s.history.undo_stack.len() > 0,
    ensures
        match s.history.undo_stack[s.history.undo_stack.len() - 1].selections_before {
            Some(kept) => only_selections(
                s.selections,
                undone_once(s).selections,
                kept.0,
                kept.1,
            ),
            None => undone_once(s).selections == s.selections,
        },
{
}

/// Redo gives back the selections that the transaction ended with, if their set is
/// still there, and leaves all others.
pub proof fn law_redo_restores_selections(s: State)
    requires
        s.history.redo_stack.len() > 0,
    ensures
        match s.history.redo_stack[s.history.redo_stack.len() - 1].selections_after {
            Some(kept) => only_selections(
                s.selections,
                redone_once(s).selections,
                kept.0,
                kept.1,
            ),
            None => redone_once(s).selections == s.selections,
        },
{
}

/// A transaction keeps the selections that it starts with, when it starts, what the
/// buffer had seen, and whether there was anything to save.
pub proof fn law_transaction_keeps_its_start(
    s: State,
    set_id: Option<SelectionSetId>,
    now: u64,
)
    requires
        s.history.depth == 0,
    ensures
        ({
            let stack = started(s, set_id, now).history.undo_stack;
            let n = s.history.undo_stack.len() as int;
            &&& stack.len() == n + 1
            &&& forall|i: int| 0 <= i < n ==> #[trigger] stack[i] == s.history.undo_stack[i]
            &&& stack[n].start == s.version
            &&& stack[n].end == s.version
            &&& stack[n].buffer_was_dirty == s.is_dirty()
            &&& stack[n].first_edit_at == now
            &&& stack[n].edits.len() == 0
            &&& match set_id {
                Some(id) => stack[n].selections_before == Some((id, s.selections[id].selections)),
                None => stack[n].selections_before is None,
            }
        }),
{
}

/// A transaction within another one only makes it deeper.
pub proof fn law_inner_transaction(s: State, set_id: Option<SelectionSetId>, now: u64)
    requires
        s.history.depth > 0,
    ensures
        started(s, set_id, now).history.undo_stack == s.history.undo_stack,
        started(s, set_id, now).history.depth == s.history.depth + 1,
        ended(started(s, set_id, now), set_id, now) == s,
{
}

/// A transaction that ends keeps the selections that it ends with and when it ends,
/// and all else of it stays.
pub proof fn law_transaction_keeps_its_end(
    s: State,
    kept: Option<(SelectionSetId, Seq<SelectionModel>)>,
    now: u64,
)
    requires
        s.history.depth == 1,
        s.history.undo_stack.len() > 0,
        s.history.undo_stack[s.history.undo_stack.len() - 1].ranges.len() > 0,
    ensures
        ({
            let n = s.history.undo_stack.len() - 1;
            let before = s.history.undo_stack[n];
            let stack = transaction_ended(s.history, kept, now).undo_stack;
            &&& stack.len() == n + 1
            &&& forall|i: int| 0 <= i < n ==> #[trigger] stack[i] == s.history.undo_stack[i]
            &&& stack[n].selections_after == kept
            &&& stack[n].last_edit_at == now
            &&& stack[n].selections_before == before.selections_before
            &&& stack[n].first_edit_at == before.first_edit_at
            &&& stack[n].start == before.start
            &&& stack[n].end == before.end
            &&& stack[n].edits == before.edits
            &&& stack[n].ranges == before.ranges
            &&& transaction_ended(s.history, kept, now).depth == 0
        }),
{
}

/// An edit that a transaction gathers leaves when and with what it started.
pub proof fn law_gathered_edit(t: TransactionModel, edit: EditModel)
    ensures
        with_edit(t, edit).selections_before == t.selections_before,
        with_edit(t, edit).first_edit_at == t.first_edit_at,
        with_edit(t, edit).start == t.start,
        with_edit(t, edit).buffer_was_dirty == t.buffer_was_dirty,
        with_edit(t, edit).edits.len() == t.edits.len() + 1,
        with_edit(t, edit).edits.take(t.edits.len() as int) == t.edits,
        with_edit(t, edit).edits[t.edits.len() as int].replica_id == edit.timestamp.replica_id,
        with_edit(t, edit).edits[t.edits.len() as int].value == edit.timestamp.local,
{
    assert(with_edit(t, edit).edits.take(t.edits.len() as int) =~= t.edits);
}

/// After whatever may have changed the text, it is reported that the text was edited
/// if it has changed, and that there is now something to save if there was nothing
/// before; and the text is to be parsed again.
pub proof fn law_changes_are_reported(s: State, since: Version, was_dirty: bool)
    ensures
        ({
            let effects = change_effects(s, since, was_dirty);
            let has_changed = s.changes_since(since).len() > 0;
            &&& effects.len() > 0
            &&& effects[0] == EffectModel::Notify
            &&& !has_changed ==> effects.len() == 1 && changed(s, since) == s
            &&& has_changed ==> {
                let first = if was_dirty {
                    2int
                } else {
                    3
                };
                &&& effects.len() >= first
                &&& effects[1] == EffectModel::Emit(crate::context::Event::Edited)
                &&& !was_dirty ==> effects[2] == EffectModel::Emit(crate::context::Event::Dirtied)
                &&& effects.skip(first) == reparse_effects(s)
                &&& changed(s, since) == reparsing(s)
            }
        }),
{
    let effects = change_effects(s, since, was_dirty);
    if s.changes_since(since).len() > 0 {
        let first = if was_dirty {
            2int
        } else {
            3
        };
        assert(effects.skip(first) =~= reparse_effects(s));
    }
}

/// A parse is asked for if there is a language and none is on the way: of the text as
/// it is, for the version of now, and with the tree brought up to date. None is asked
/// for otherwise.
pub proof fn law_parse_is_asked_for(s: State)
    ensures
        s.language is None || s.parsing ==> reparse_effects(s).len() == 0 && reparsing(s) == s,
        s.language is Some && !s.parsing ==> {
            &&& reparse_effects(s).len() == 1
            &&& reparse_effects(s)[0] matches EffectModel::Parse {
                text,
                old_tree,
                version,
                language,
            } && text == s.text() && old_tree == current_tree(s) && version == s.version
                && language == s.language->0
            &&& reparsing(s).parsing
            &&& reparsing(s).cells == s.cells
            &&& reparsing(s).version == s.version
            &&& reparsing(s).history == s.history
        },
{
}

/// A parse that has come to an end leaves its tree with the version that it was made
/// for, is counted and reported, and has lines indented if someone has asked for it.
pub proof fn law_parse_ends(s: State, tree: Tree, version: Version)
    requires
        s.parse_count < usize::MAX,
    ensures
        ({
            let done = parsed_state(s, tree, version);
            let kept = State { tree: Some((tree, version)), ..s };
            let effects = parsed_effects(s, tree, version);
            let n = effects.len() as int;
            let asked = s.language is Some && s.requests.len() > 0;
            &&& done.parse_count == s.parse_count + 1
            &&& done.tree == interpolated(kept).tree
            &&& done.pending_autoindent <==> s.pending_autoindent || asked
            &&& done.requests == s.requests
            &&& done.cells == s.cells
            &&& n == if asked {
                3int
            } else {
                2
            }
            &&& effects[n - 2] == EffectModel::Emit(crate::context::Event::Reparsed)
            &&& effects[n - 1] == EffectModel::Notify
            &&& asked ==> (effects[0] matches EffectModel::Autoindent { snapshot, requests }
                && requests == s.requests && snapshot.text == s.text() && snapshot.tree
                == current_tree(kept))
        }),
{
    let kept = State { tree: Some((tree, version)), ..s };
    let counted = State { parse_count: s.parse_count + 1, ..kept };
    assert(current_tree(kept) == current_tree(counted));
}

/// Another parse is due exactly if the language has changed, or the buffer has seen
/// all that the parsed version had and something more.
pub proof fn law_parse_is_due_again(s: State, version: Version, language_changed: bool)
    ensures
        language_changed ==> parse_again(s, version, language_changed),
        !language_changed ==> (parse_again(s, version, language_changed) <==> {
            &&& forall|r: ReplicaId| seen_of(s.version, r) >= #[trigger] seen_of(version, r)
            &&& exists|r: ReplicaId| #[trigger] seen_of(s.version, r) > seen_of(version, r)
        }),
{
    if forall|r: ReplicaId| !(#[trigger] seen_of(s.version, r) > seen_of(version, r)) {
        assert(crate::clock::includes(version, s.version));
    }
}

/// The other replicas are told of an operation, as it is, if there is a file.
pub proof fn law_operations_are_sent(s: State, op: OperationModel)
    ensures
        s.file is None ==> send_effects(s, op).len() == 0,
        s.file is Some ==> send_effects(s, op).len() == 1 && send_effects(s, op)[0]
            == EffectModel::Send(op),
{
}

/// A file that has changed on disk is reported if its path or its time is another
/// one; its text is read in if its time is another one, there is a text, and nothing
/// is to be saved. The report comes first.
pub proof fn law_changed_file(
    s: State,
    path: Seq<char>,
    mtime: u64,
    new_text: Option<Seq<char>>,
)
    requires
        s.file is Some,
    ensures
        ({
            let file = s.file->0;
            let effects = file_effects(s, path, mtime, new_text);
            let reports = path != file.path || mtime != file.mtime;
            let reads = mtime != file.mtime && new_text is Some && same_version(
                s.version,
                s.saved_version,
            );
            &&& !reports ==> effects.len() == 0
            &&& reports ==> effects.len() > 0 && effects[0] == EffectModel::Emit(
                crate::context::Event::FileHandleChanged,
            )
            &&& reports && !reads ==> effects.len() == 1
            &&& reads ==> effects.len() == 2 && (effects[1] matches EffectModel::Reload {
                new_text: text,
                mtime: time,
            } && text == new_text->0 && time == mtime)
        }),
{
}

/// There is something to save exactly if the buffer has seen more than what was
/// saved, or its file has been deleted; and there is a conflict exactly if it has seen
/// more than what was saved and its file was modified later than it was saved.
pub proof fn law_dirty_and_conflict(s: State)
    ensures
        ({
            let ahead = {
                &&& forall|r: ReplicaId|
                    seen_of(s.version, r) >= #[trigger] seen_of(s.saved_version, r)
                &&& exists|r: ReplicaId|
                    #[trigger] seen_of(s.version, r) > seen_of(s.saved_version, r)
            };
            &&& s.is_dirty() <==> ahead || (s.file is Some && (s.file->0).deleted)
            &&& s.has_conflict() <==> ahead && s.file is Some && (s.file->0).mtime > s.saved_mtime
        }),
{
    if forall|r: ReplicaId| !(#[trigger] seen_of(s.version, r) > seen_of(s.saved_version, r)) {
        assert(crate::clock::includes(s.saved_version, s.version));
    }
}

/// The edit of a syntax tree that stands for a change: it starts where the change
/// starts in the text of now, is as long as what is gone and what has come, and its
/// old end lies where what is gone would end if it stood there.
pub proof fn law_tree_edit(span: Span, text: Seq<u8>, old_text: Seq<u8>)
    requires
        0 <= span.new.0 <= span.new.1 <= text.len(),
        0 <= span.old.0 <= span.old.1 <= old_text.len(),
        text.len() + old_text.len() <= u32::MAX,
    ensures
        ({
            let edit = tree_edit(span, text, old_text);
            let gone = old_text.subrange(span.old.0, span.old.1);
            let before = text.take(span.new.0) + gone;
            &&& edit.start_byte == span.new.0
            &&& edit.new_end_byte == span.new.1
            &&& edit.old_end_byte - edit.start_byte == span.old.1 - span.old.0
            &&& edit.start_position == point_at(text, span.new.0)
            &&& edit.new_end_position == point_at(text, span.new.1)
            &&& edit.old_end_position == point_at(before, before.len() as int)
        }),
{
    let gone = old_text.subrange(span.old.0, span.old.1);
    let before = text.take(span.new.0) + gone;
    let a = span.new.0;
    let n = gone.len() as int;
    lemma_point_sum(before, a, a + n);
    assert(before.subrange(a, a + n) =~= gone);
    assert(before.take(a) =~= text.take(a));
    lemma_lines_prefix(before, text, a);
    lemma_point_sum(old_text, span.old.0, span.old.1);
    crate::rope::lemma_lines_bounds(old_text, span.old.0);
    crate::rope::lemma_lines_bounds(old_text, span.old.1);
    crate::rope::lemma_lines_bounds(gone, n);
    crate::rope::lemma_lines_bounds(before, a);
}

/// A tree is brought up to date by the changes one after the other, each once.
pub proof fn law_tree_follows_the_changes(
    tree: Tree,
    spans: Seq<Span>,
    text: Seq<u8>,
    old_text: Seq<u8>,
    n: int,
)
    requires
        0 <= n < spans.len(),
    ensures
        tree_after(tree, spans, text, old_text, 0) == tree,
        tree_after(tree, spans, text, old_text, n + 1) == edited_tree(
            tree_after(tree, spans, text, old_text, n),
            tree_edit(spans[n], text, old_text),
        ),
{
}

/// The places of an edit whose lines are to be indented are the starts of its ranges,
/// in order, but for those at the end of a line where the edit starts a new one.
pub proof fn law_edited_places(
    text: Seq<u8>,
    new_bytes: Seq<u8>,
    ranges: Seq<(int, int)>,
    n: int,
)
    requires
        0 <= n < ranges.len(),
        0 <= ranges[n].0 <= usize::MAX,
    ensures
        ({
            let past = edited_places(text, new_bytes, ranges, n);
            let now = edited_places(text, new_bytes, ranges, n + 1);
            let point = point_at(text, ranges[n].0);
            let at_line_end = point.column == line_len_of(text, point.row as int);
            let starts_line = new_bytes.len() > 0 && new_bytes[0] == 10;
            &&& edited_places(text, new_bytes, ranges, 0).len() == 0
            &&& starts_line && at_line_end ==> now == past
            &&& !(starts_line && at_line_end) ==> {
                &&& now.len() == past.len() + 1
                &&& now.take(past.len() as int) == past
                &&& now[past.len() as int].0 == ranges[n].0
                &&& now[past.len() as int].1 == Bias::Left
            }
        }),
{
    let past = edited_places(text, new_bytes, ranges, n);
    let now = edited_places(text, new_bytes, ranges, n + 1);
    if now.len() > past.len() {
        assert(now.take(past.len() as int) =~= past);
    }
}

/// Two versions together have seen, of each replica, what the one has seen that has
/// seen more of it.
pub proof fn law_joined_versions(a: Version, b: Version, r: ReplicaId)
    ensures
        seen_of(joined(a, b), r) >= seen_of(a, r),
        seen_of(joined(a, b), r) >= seen_of(b, r),
        seen_of(joined(a, b), r) == seen_of(a, r) || seen_of(joined(a, b), r) == seen_of(b, r),
{
}

/// Of a replica that both versions know of, what they share is the less of what they
/// have seen; of one that only one of them knows of, it is what that one has seen.
pub proof fn law_met_versions(a: Version, b: Version, r: ReplicaId)
    ensures
        a.contains_key(r) && b.contains_key(r) ==> seen_of(met(a, b), r) <= seen_of(a, r)
            && seen_of(met(a, b), r) <= seen_of(b, r) && (seen_of(met(a, b), r) == seen_of(a, r)
            || seen_of(met(a, b), r) == seen_of(b, r)),
        a.contains_key(r) && !b.contains_key(r) ==> seen_of(met(a, b), r) == seen_of(a, r),
        !a.contains_key(r) && b.contains_key(r) ==> seen_of(met(a, b), r) == seen_of(b, r),
        !a.contains_key(r) && !b.contains_key(r) ==> seen_of(met(a, b), r) == 0,
{
}

/// Rows are indented one after the other, each that is there and for which there is
/// room.
pub proof fn law_rows_are_indented_in_turn(
    s: State,
    columns: Seq<(u32, u32)>,
    now: u64,
    n: int,
    start: int,
)
    requires
        0 <= n < columns.len(),
        is_row_start(rows_indented(s, columns, now, n).text(), columns[n].0 as int, start),
        rows_indented(s, columns, now, n).local_clock.value < u32::MAX,
        rows_indented(s, columns, now, n).lamport_clock.value < u32::MAX,
        rows_indented(s, columns, now, n).history.depth < usize::MAX,
        rows_indented(s, columns, now, n).cells.len() + columns[n].1 + 1 < usize::MAX,
    ensures
        rows_indented(s, columns, now, 0) == s,
        rows_indented(s, columns, now, n + 1) == row_indented(
            rows_indented(s, columns, now, n),
            columns[n].0,
            columns[n].1,
            now,
        ),
{
    let text = rows_indented(s, columns, now, n).text();
    crate::rope::lemma_newlines_grow(text, start, text.len() as int);
}

/// Lines are indented in one transaction, all of them, and are then not asked for any
/// more.
pub proof fn law_lines_are_indented(s: State, columns: Seq<(u32, u32)>, now: u64)
    ensures
        autoindented(s, columns, now) == ended(
            rows_indented(
                started(
                    State { pending_autoindent: false, requests: Seq::empty(), ..s },
                    None,
                    now,
                ),
                columns,
                now,
                columns.len() as int,
            ),
            None,
            now,
        ),
{
}

} // verus!
