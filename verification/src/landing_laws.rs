//! Where the text of an edit goes, what it hides, and what is done in one
//! transaction.

use vstd::prelude::*;
use vstd::utf8::is_char_boundary;

use crate::buffer_diff::{
    ChangeTag, change_edit, changes_effects, changes_made, diff_applied, diff_effects,
};
use crate::buffer_edit::{good_range, joined_ranges};
use crate::buffer_syntax::{
    autoindent_effects, can_indent, indent_edit, rows_effects, rows_indented,
};
use crate::clock::{Lamport, Local, Version, observes, observing};
use crate::context::EffectModel;
use crate::document::{Cell, seen_rank, visible_rank};
use crate::error::Error;
use crate::fragment::{InsertionTimestamp, local_of, shown};
use crate::history::lemma_grouped_len;
use crate::operation::{OperationModel, SelectionModel, SelectionSetId};
use crate::point::{Point, point_difference, point_le, point_sum};
use crate::random::{
    as_many_as_fit, may_change, selections_changed, selections_changed_effects, spaced_out,
    undone_in_turn, undone_in_turn_effects,
};
use crate::shared::Flatten;
use crate::state::{
    State, edit_effects, ended_effects, selections_effects, selections_updated, started,
    undo_effects, undone_or_redone,
};
use crate::syntax::ended_line;
use crate::undo::{Undo, undo_applied};
use crate::undo_map::UndoLog;
use crate::weave::{
    cell_shown_at, inserted_cells, landing_at, landing_end, lemma_seek, lemma_skip_stops,
    remote_plan, seek, touched,
};

verus! {

/// Text is counted cell by cell: what a version had seen, and what is visible.
pub proof fn law_cells_are_counted(cells: Seq<Cell>, v: Version, i: int)
    requires
        0 <= i < cells.len(),
    ensures
        seen_rank(cells, v, 0) == 0,
        visible_rank(cells, 0) == 0,
        observes(v, local_of(cells[i].timestamp)) ==> seen_rank(cells, v, i + 1) == seen_rank(
            cells,
            v,
            i,
        ) + 1,
        !observes(v, local_of(cells[i].timestamp)) ==> seen_rank(cells, v, i + 1) == seen_rank(
            cells,
            v,
            i,
        ),
        cells[i].visible ==> visible_rank(cells, i + 1) == visible_rank(cells, i) + 1,
        !cells[i].visible ==> visible_rank(cells, i + 1) == visible_rank(cells, i),
{
}

/// The text of an edit goes to the first place that has as much text before it as the
/// edit says, of what its version had seen. If a fragment that the version had seen goes
/// on there, it goes within that; else all text that follows and was inserted later
/// stays in front of it, and what comes after it was not inserted later.
pub proof fn law_text_lands_behind_newer_text(
    cells: Seq<Cell>,
    v: Version,
    lamport: Lamport,
    offset: int,
    i: int,
)
    requires
        0 <= offset <= seen_rank(cells, v, cells.len() as int),
    ensures
        ({
            let p = seek(cells, v, offset);
            let at = landing_at(cells, v, lamport, offset);
            let within = 0 < p < cells.len() && !cells[p].head && observes(
                v,
                Local {
                    replica_id: cells[p].timestamp.replica_id,
                    value: cells[p].timestamp.local,
                },
            );
            &&& 0 <= p <= at <= cells.len()
            &&& seen_rank(cells, v, p) == offset
            &&& 0 <= i < p ==> seen_rank(cells, v, i) < offset
            &&& within ==> at == p
            &&& !within && p <= i < at ==> {
                let t = cells[i].timestamp;
                t.lamport > lamport.value || (t.lamport == lamport.value && t.replica_id
                    > lamport.replica_id)
            }
            &&& !within && at < cells.len() ==> {
                let t = cells[at].timestamp;
                t.lamport < lamport.value || (t.lamport == lamport.value && t.replica_id
                    <= lamport.replica_id)
            }
        }),
{
    lemma_seek(cells, v, offset);
    lemma_skip_stops(cells, lamport, seek(cells, v, offset));
}

/// An edit hides what was shown at its version from where its text goes up to where its
/// range ended, and marks it as deleted by the edit. It hides nothing that was not shown
/// then, and of all else only where fragments start may change.
pub proof fn law_edit_hides_what_it_had_seen(
    cells: Seq<Cell>,
    log: UndoLog,
    v: Version,
    lamport: Lamport,
    ranges: Seq<(int, int)>,
    id: Local,
    i: int,
    k: int,
)
    requires
        0 <= i < cells.len(),
        0 <= k < ranges.len(),
    ensures
        ({
            let plan = remote_plan(cells, log, v, lamport, ranges);
            let now = touched(cells, plan, id);
            &&& now.len() == cells.len()
            &&& now[i].byte == cells[i].byte
            &&& now[i].timestamp == cells[i].timestamp
            &&& now[i].max_undos == cells[i].max_undos
            &&& cells[i].head ==> now[i].head
            &&& !cell_shown_at(cells[i], v, log) ==> now[i].visible == cells[i].visible
                && now[i].deletions == cells[i].deletions
            &&& cell_shown_at(cells[i], v, log) && landing_at(cells, v, lamport, ranges[k].0) <= i
                < landing_end(cells, v, lamport, ranges[k]) ==> {
                &&& !now[i].visible
                &&& now[i].deletions == cells[i].deletions.insert(id)
            }
            &&& landing_end(cells, v, lamport, ranges[k]) >= landing_at(
                cells,
                v,
                lamport,
                ranges[k].0,
            )
            &&& ranges[k].0 == ranges[k].1 ==> landing_end(cells, v, lamport, ranges[k])
                == landing_at(cells, v, lamport, ranges[k].0)
            &&& ranges[k].0 != ranges[k].1 && seek(cells, v, ranges[k].1) >= landing_at(
                cells,
                v,
                lamport,
                ranges[k].0,
            ) ==> landing_end(cells, v, lamport, ranges[k]) == seek(cells, v, ranges[k].1)
        }),
{
    let plan = remote_plan(cells, log, v, lamport, ranges);
    if cell_shown_at(cells[i], v, log) && landing_at(cells, v, lamport, ranges[k].0) <= i
        < landing_end(cells, v, lamport, ranges[k]) {
        assert(plan.hits.contains(i));
    }
}

/// An undo changes of a cell only whether it is visible, and what it knows of undos. It
/// leaves a cell alone that was not shown at its version and that none of its edits has
/// inserted; where it knows of an undo that it did not, it is visible if the log says
/// so.
pub proof fn law_undo_reviews_cells(cells: Seq<Cell>, log: UndoLog, undo: Undo, i: int)
    requires
        0 <= i < cells.len(),
    ensures
        ({
            let now = undo_applied(cells, log, undo);
            let own = undo.counts.contains_key(
                Local {
                    replica_id: cells[i].timestamp.replica_id,
                    value: cells[i].timestamp.local,
                },
            );
            &&& now.len() == cells.len()
            &&& now[i].byte == cells[i].byte
            &&& now[i].timestamp == cells[i].timestamp
            &&& now[i].deletions == cells[i].deletions
            &&& now[i].head == cells[i].head
            &&& !own && !cell_shown_at(cells[i], undo.version, log) ==> now[i] == cells[i]
            &&& now[i] != cells[i] ==> {
                &&& now[i].visible == shown(cells[i].timestamp, cells[i].deletions, log)
                &&& observes(now[i].max_undos, undo.id)
                &&& now[i].max_undos == observing(cells[i].max_undos, undo.id)
            }
        }),
{
}

/// Text that has just been inserted is one fragment: it is shown, nothing has deleted
/// or undone it, and each byte knows the insertion.
pub proof fn law_inserted_text(timestamp: InsertionTimestamp, text: Seq<u8>, i: int)
    requires
        0 <= i < text.len(),
    ensures
        ({
            let cells = inserted_cells(timestamp, text);
            &&& cells.len() == text.len()
            &&& cells[i].byte == text[i]
            &&& cells[i].visible
            &&& cells[i].timestamp == timestamp
            &&& cells[i].deletions == Set::<Local>::empty()
            &&& cells[i].head <==> i == 0
        }),
{
}

/// A point counted from another one on, and then put behind that one, is the point
/// again.
pub proof fn law_points_differ(a: Point, b: Point)
    requires
        point_le(b, a),
    ensures
        point_sum(b, point_difference(a, b)) == a,
        a.row == b.row ==> point_difference(a, b).row == 0 && point_difference(a, b).column
            == a.column - b.column,
        a.row > b.row ==> point_difference(a, b).row == a.row - b.row && point_difference(
            a,
            b,
        ).column == a.column,
{
}

/// A source of queries is compiled as it is, with a line feed behind it.
pub proof fn law_line_is_ended(source: Seq<char>)
    ensures
        ended_line(source).len() == source.len() + 1,
        ended_line(source).take(source.len() as int) == source,
        ended_line(source)[source.len() as int] == '\n',
{
    assert(ended_line(source).take(source.len() as int) =~= source);
}

/// A set of selections that is given others stays as active as it was; all else but the
/// clock stays as it was.
pub proof fn law_selections_are_replaced(
    s: State,
    set_id: SelectionSetId,
    selections: Seq<SelectionModel>,
    id: SelectionSetId,
)
    requires
        s.lamport_clock.value < u32::MAX,
    ensures
        ({
            let now = selections_updated(s, set_id, selections);
            &&& now.selections.contains_key(set_id)
            &&& now.selections[set_id].selections == selections
            &&& now.selections[set_id].active == s.selections[set_id].active
            &&& id != set_id ==> (now.selections.contains_key(id) <==> s.selections.contains_key(
                id,
            )) && (s.selections.contains_key(id) ==> now.selections[id] == s.selections[id])
            &&& now.lamport_clock.value == s.lamport_clock.value + 1
            &&& now.local_clock == s.local_clock
            &&& now.cells == s.cells
            &&& now.version == s.version
            &&& now.history == s.history
        }),
{
}

/// A change of selections is reported, and sent, if there is a file, under the time of
/// the clock.
pub proof fn law_selections_are_reported(
    s: State,
    set_id: SelectionSetId,
    selections: Option<Seq<SelectionModel>>,
)
    ensures
        ({
            let effects = selections_effects(s, set_id, selections);
            &&& effects.len() > 0
            &&& effects[0] == EffectModel::Notify
            &&& s.file is None ==> effects.len() == 1
            &&& s.file is Some ==> effects.len() == 2 && effects[1] == EffectModel::Send(
                OperationModel::UpdateSelections { set_id, selections, lamport: s.lamport_clock },
            )
        }),
{
}

/// A change of selections that comes about by chance adds a set that is not active,
/// takes one away, or gives one other selections; it is reported as what it is.
pub proof fn law_random_selections(
    s: State,
    selections: Seq<SelectionModel>,
    id: SelectionSetId,
)
    requires
        s.lamport_clock.value < u32::MAX,
    ensures
        ({
            let more = selections_changed(s, selections, None, false);
            &&& more.selections.contains_key(s.lamport_clock)
            &&& more.selections[s.lamport_clock].selections == selections
            &&& !more.selections[s.lamport_clock].active
            &&& more.selections.remove(s.lamport_clock) =~= s.selections.remove(s.lamport_clock)
            &&& more.lamport_clock.value == s.lamport_clock.value + 1
            &&& more.cells == s.cells
            &&& selections_changed_effects(s, selections, None, false) == selections_effects(
                s,
                s.lamport_clock,
                Some(selections),
            )
        }),
        ({
            let less = selections_changed(s, selections, Some(id), true);
            &&& !less.selections.contains_key(id)
            &&& forall|other: SelectionSetId|
                other != id ==> (#[trigger] less.selections.contains_key(other)
                    <==> s.selections.contains_key(other))
            &&& less.lamport_clock.value == s.lamport_clock.value + 1
            &&& less.cells == s.cells
            &&& selections_changed_effects(s, selections, Some(id), true) == selections_effects(
                s,
                id,
                None,
            )
        }),
        selections_changed(s, selections, Some(id), false) == selections_updated(s, id, selections),
        selections_changed_effects(s, selections, Some(id), false) == selections_effects(
            s,
            id,
            Some(selections),
        ),
{
}

/// Ranges that are picked by chance lie in the text and do not cut a character; those of
/// an edit do not touch, and there are fewer than asked for only if the end of the text
/// has been reached. A set that is picked is one of the replica's own.
pub proof fn law_random_choices(
    s: State,
    ranges: Seq<(int, int)>,
    count: int,
    id: SelectionSetId,
    removed: bool,
    i: int,
    j: int,
)
    requires
        0 <= i < j < ranges.len(),
    ensures
        spaced_out(s.text(), ranges) ==> {
            &&& 0 <= ranges[i].0 <= ranges[i].1 < ranges[j].0 <= ranges[j].1 <= s.text().len()
            &&& is_char_boundary(s.text(), ranges[i].0)
            &&& is_char_boundary(s.text(), ranges[i].1)
        },
        as_many_as_fit(s.text(), ranges, count) ==> ranges.len() <= count && (ranges.len() < count
            ==> ranges[ranges.len() - 1].1 == s.text().len()),
        may_change(s, Some(id), removed, ranges) ==> {
            &&& s.selections.contains_key(id)
            &&& id.replica_id == s.replica_id
            &&& ranges.len() == 5
            &&& 0 <= ranges[i].0 <= ranges[i].1 <= s.text().len()
            &&& is_char_boundary(s.text(), ranges[i].0)
            &&& is_char_boundary(s.text(), ranges[i].1)
        },
        may_change(s, None, removed, ranges) ==> !removed,
{
    if spaced_out(s.text(), ranges) || may_change(s, Some(id), removed, ranges) {
        assert(good_range(s.text(), ranges[i]));
        assert(good_range(s.text(), ranges[j]));
    }
}

/// A result inside a result is the inner one; an error stands for both.
pub proof fn law_flattened<T>(inner: Result<T, Error>, error: Error)
    ensures
        Flatten::<T>::flattened(Ok::<Result<T, Error>, Error>(inner)) == inner,
        Flatten::<T>::flattened(Err::<Result<T, Error>, Error>(error)) == Err::<T, Error>(error),
{
}

/// Transactions that are undone or redone by chance are so one after the other, each as
/// it stands in the history when its turn comes.
pub proof fn law_undone_in_turn(s: State, places: Seq<int>, place: int)
    ensures
        undone_in_turn(s, Seq::empty()) == s,
        undone_in_turn_effects(s, Seq::empty()).len() == 0,
        ({
            let before = undone_in_turn(s, places);
            let t = before.history.undo_stack[place];
            &&& undone_in_turn(s, places.push(place)) == undone_or_redone(before, t)
            &&& undone_in_turn_effects(s, places.push(place)) == undone_in_turn_effects(s, places)
                + undo_effects(before, t)
        }),
{
    assert(places.push(place).drop_last() =~= places);
}

/// While a transaction goes on, the edits of a diff belong to it: no other one is
/// started, ended or changed.
proof fn lemma_changes_within(
    s: State,
    changes: Seq<(ChangeTag, usize)>,
    new: Seq<u8>,
    now: u64,
    n: int,
)
    requires
        s.history.depth > 0,
        s.history.undo_stack.len() > 0,
    ensures
        ({
            let h = changes_made(s, changes, new, now, n).history;
            let m = s.history.undo_stack.len() as int;
            &&& h.depth == s.history.depth
            &&& h.undo_stack.len() == m
            &&& h.undo_stack.take(m - 1) == s.history.undo_stack.take(m - 1)
            &&& h.undo_stack[m - 1].start == s.history.undo_stack[m - 1].start
            &&& h.undo_stack[m - 1].selections_before == s.history.undo_stack[m
                - 1].selections_before
            &&& h.undo_stack[m - 1].first_edit_at == s.history.undo_stack[m - 1].first_edit_at
            &&& h.redo_stack == s.history.redo_stack
        }),
    decreases n,
{
    if n > 0 {
        lemma_changes_within(s, changes, new, now, n - 1);
        let before = changes_made(s, changes, new, now, n - 1).history.undo_stack;
        let after = changes_made(s, changes, new, now, n).history.undo_stack;
        let m = before.len() as int;
        assert(after.take(m - 1) =~= before.take(m - 1));
    }
}

/// The changes of a diff are one transaction: within another one they belong to that;
/// else one comes, at most, that starts from the version and at the time at which the
/// diff was applied.
pub proof fn law_diff_is_one_transaction(
    s: State,
    changes: Seq<(ChangeTag, usize)>,
    new: Seq<u8>,
    now: u64,
)
    requires
        s.history.depth >= 0,
        s.history.depth > 0 ==> s.history.undo_stack.len() > 0,
    ensures
        ({
            let h = diff_applied(s, changes, new, now).history;
            let n = s.history.undo_stack.len() as int;
            &&& h.depth == s.history.depth
            &&& h.redo_stack == s.history.redo_stack
            &&& s.history.depth > 0 ==> h.undo_stack.len() == n && h.undo_stack.take(n - 1)
                == s.history.undo_stack.take(n - 1)
            &&& s.history.depth == 0 ==> h.undo_stack.len() <= n + 1
            &&& s.history.depth == 0 && h.undo_stack.len() == n + 1 ==> {
                &&& h.undo_stack.take(n) == s.history.undo_stack
                &&& h.undo_stack[n].start == s.version
                &&& h.undo_stack[n].first_edit_at == now
                &&& h.undo_stack[n].last_edit_at == now
                &&& h.undo_stack[n].selections_before is None
                &&& h.undo_stack[n].selections_after is None
            }
        }),
{
    let begun = started(s, None, now);
    lemma_changes_within(begun, changes, new, now, changes.len() as int);
    let made = changes_made(begun, changes, new, now, changes.len() as int);
    let n = s.history.undo_stack.len() as int;
    if s.history.depth == 0 {
        let left = crate::history::transaction_ended(made.history, None, now);
        assert(begun.history.undo_stack.take(n) =~= s.history.undo_stack);
        lemma_grouped_len(left.undo_stack, left.group_interval, left.undo_stack.len() as int);
        let h = diff_applied(s, changes, new, now).history;
        if h.undo_stack.len() == n + 1 {
            assert(h.undo_stack.take(n) =~= made.history.undo_stack.take(n));
        }
    }
}

/// What the changes of a diff report comes in the order of the changes, and what their
/// transaction reports comes last.
pub proof fn law_diff_is_reported_in_turn(
    s: State,
    changes: Seq<(ChangeTag, usize)>,
    new: Seq<u8>,
    now: u64,
    n: int,
)
    requires
        0 <= n < changes.len(),
    ensures
        ({
            let edit = change_edit(changes, new, n);
            let before = changes_made(s, changes, new, now, n);
            &&& changes_effects(s, changes, new, now, 0).len() == 0
            &&& changes_effects(s, changes, new, now, n + 1) == changes_effects(
                s,
                changes,
                new,
                now,
                n,
            ) + edit_effects(
                before,
                joined_ranges(edit.0, edit.1),
                edit.1,
                now,
                before.requests,
            )
            &&& changes[n].0 is Equal ==> changes_made(s, changes, new, now, n + 1) == before
        }),
        ({
            let begun = started(s, None, now);
            let all = changes.len() as int;
            let edits = changes_effects(begun, changes, new, now, all);
            let m = edits.len() as int;
            &&& diff_effects(s, changes, new, now).take(m) == edits
            &&& diff_effects(s, changes, new, now).skip(m) == ended_effects(
                changes_made(begun, changes, new, now, all),
                None,
                now,
            )
        }),
{
    let begun = started(s, None, now);
    let edits = changes_effects(begun, changes, new, now, changes.len() as int);
    let effects = diff_effects(s, changes, new, now);
    assert(effects.take(edits.len() as int) =~= edits);
    assert(effects.skip(edits.len() as int) =~= ended_effects(
        changes_made(begun, changes, new, now, changes.len() as int),
        None,
        now,
    ));
}

/// What the indentation of rows reports comes in the order of the rows, and what their
/// transaction reports comes last.
pub proof fn law_indentation_is_reported_in_turn(
    s: State,
    columns: Seq<(u32, u32)>,
    now: u64,
    n: int,
)
    requires
        0 <= n < columns.len(),
    ensures
        ({
            let before = rows_indented(s, columns, now, n);
            let edit = indent_edit(before.text(), columns[n].0, columns[n].1);
            &&& rows_effects(s, columns, now, 0).len() == 0
            &&& can_indent(before, columns[n].0, columns[n].1) ==> rows_effects(
                s,
                columns,
                now,
                n + 1,
            ) == rows_effects(s, columns, now, n) + edit_effects(
                before,
                joined_ranges(edit.0, edit.1),
                edit.1,
                now,
                before.requests,
            )
            &&& !can_indent(before, columns[n].0, columns[n].1) ==> rows_effects(
                s,
                columns,
                now,
                n + 1,
            ) == rows_effects(s, columns, now, n)
        }),
        ({
            let idle = State { pending_autoindent: false, requests: Seq::empty(), ..s };
            let begun = started(idle, None, now);
            let all = columns.len() as int;
            let edits = rows_effects(begun, columns, now, all);
            let m = edits.len() as int;
            &&& autoindent_effects(s, columns, now).take(m) == edits
            &&& autoindent_effects(s, columns, now).skip(m) == ended_effects(
                rows_indented(begun, columns, now, all),
                None,
                now,
            )
        }),
{
    let idle = State { pending_autoindent: false, requests: Seq::empty(), ..s };
    let begun = started(idle, None, now);
    let edits = rows_effects(begun, columns, now, columns.len() as int);
    let effects = autoindent_effects(s, columns, now);
    assert(effects.take(edits.len() as int) =~= edits);
    assert(effects.skip(edits.len() as int) =~= ended_effects(
        rows_indented(begun, columns, now, columns.len() as int),
        None,
        now,
    ));
    assert(rows_effects(s, columns, now, n) + Seq::<EffectModel>::empty() =~= rows_effects(
        s,
        columns,
        now,
        n,
    ));
}

} // verus!
