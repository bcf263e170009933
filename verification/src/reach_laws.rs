//! Undos that reach all that their edits did, on whatever replica they are
//! applied.

use vstd::prelude::*;

use crate::clock::{
    Lamport, Local, ReplicaId, Version, exceeds, includes, observes, observing, seen_of,
};
use crate::converge::{
    edit_done, gaps_of, high, lemma_laid_at, lemma_places, lemma_rank_laid, lemma_stands, low,
    marked, placed_in, unseen,
};
use crate::delivery_laws::clock_ahead;
use crate::document::{Cell, all_seen, seen_rank};
use crate::edit_laws::{lemma_all_seen, lemma_same_visible};
use crate::fragment::{having_seen, lemma_having_seen, lemma_having_seen_only, local_of, shown};
use crate::history::TransactionModel;
use crate::operation::{EditModel, OperationModel};
use crate::reach::{covers, dominated, ends_between, lemma_looked_at, seen};
use crate::replica_laws::{
    bare, changes_text, edits_in, law_replicas_converge_with_undos, lemma_applied, lemma_bare_cells,
    lemma_rank_same, lemma_took, lemma_undone_at_same, logs_agree_at, name_of, takes, took,
};
use crate::replicas::{at_different_times, fits_in, lemma_no_ranges};
use crate::state::{State, applied, undo_of, undone_or_redone};
use crate::transaction_laws::{
    Change, can_edit_in_turn, edited_in_turn, holds_edits, lemma_counts, lemma_ends_between,
    lemma_gathered, lemma_names_seen, names_in_turn, theirs,
};
use crate::undo::{Undo, undo_applied};
use crate::undo_laws::{
    alike, boundary, law_remote_edit_keeps_settled, lemma_undo_settles, settled, shows,
};
use crate::undo_map::{UndoLog, largest_count, log_with, undone, undone_at, undos_of};
use crate::weave::cell_shown_at;

verus! {

/// One of the edits has inserted the cell or deleted it.
pub open spec fn affected(c: Cell, counts: Map<Local, u32>) -> bool {
    counts.contains_key(local_of(c.timestamp)) || exists|d: Local| #[trigger]
        c.deletions.contains(d) && counts.contains_key(d)
}

/// An undo reaches what its edits did: they have been seen, its ranges are in
/// the order of their starts and end between fragments, all that the edits
/// inserted or deleted lies in them, and what they deleted was shown before
/// them. The version before the edits knows nothing of the undo.
pub open spec fn reaches(cells: Seq<Cell>, log: UndoLog, version: Version, undo: Undo) -> bool {
    let v = having_seen(undo.version, undo.counts.dom());
    let r = undo.ranges;
    &&& !observes(undo.version, undo.id)
    &&& forall|id: Local| #[trigger] undo.counts.contains_key(id) ==> observes(version, id)
    &&& forall|l: int, k: int|
        0 <= l < k < r.len() ==> (#[trigger] r[l]).0 <= (#[trigger] r[k]).0
    &&& forall|l: int|
        0 <= l < r.len() ==> ends_between(cells, v, (#[trigger] r[l]).1) || dominated(r, l)
    &&& forall|i: int|
        0 <= i < cells.len() && affected(#[trigger] cells[i], undo.counts) ==> covers(
            r,
            seen_rank(cells, v, i),
        )
    &&& forall|i: int|
        0 <= i < cells.len() && affected(#[trigger] cells[i], undo.counts)
            && !undo.counts.contains_key(local_of(cells[i].timestamp)) ==> cell_shown_at(
            cells[i],
            undo.version,
            log,
        )
}

/// A cell that none of the edits touched is shown as before.
proof fn lemma_unaffected(c: Cell, log: UndoLog, undo_id: Local, counts: Map<Local, u32>)
    requires
        !affected(c, counts),
    ensures
        shown(c.timestamp, c.deletions, log_with(log, undo_id, counts)) == shown(
            c.timestamp,
            c.deletions,
            log,
        ),
{
    let after = log_with(log, undo_id, counts);
    assert(undos_of(after, local_of(c.timestamp)) == undos_of(log, local_of(c.timestamp)));
    assert forall|d: Local| c.deletions.contains(d) implies undone(after, d) == undone(log, d) by {
        assert(!counts.contains_key(d));
        assert(undos_of(after, d) == undos_of(log, d));
    }
}

/// What a version had not seen is no news to it.
pub proof fn lemma_log_at(
    log: UndoLog,
    undo_id: Local,
    counts: Map<Local, u32>,
    id: Local,
    v: Version,
)
    requires
        !observes(v, undo_id),
    ensures
        undone_at(log_with(log, undo_id, counts), id, v) == undone_at(log, id, v),
{
    let before = undos_of(log, id);
    let after = undos_of(log_with(log, undo_id, counts), id);
    if counts.contains_key(id) {
        assert(after == before.push((undo_id, counts[id])));
        assert(after.drop_last() =~= before);
    } else {
        assert(after == before);
    }
}

/// What was shown at a version is shown at it whatever is undone later.
proof fn lemma_shown_then(
    c: Cell,
    log: UndoLog,
    undo_id: Local,
    counts: Map<Local, u32>,
    v: Version,
)
    requires
        !observes(v, undo_id),
        cell_shown_at(c, v, log),
    ensures
        cell_shown_at(c, v, log_with(log, undo_id, counts)),
{
    lemma_log_at(log, undo_id, counts, local_of(c.timestamp), v);
    let after = log_with(log, undo_id, counts);
    assert forall|d: Local| #[trigger] c.deletions.contains(d) implies !observes(v, d)
        || undone_at(after, d, v) by {
        lemma_log_at(log, undo_id, counts, d, v);
    }
}

/// An undo that reaches what its edits did looks at every cell that they
/// inserted or deleted.
pub proof fn lemma_reviewed(s: State, undo: Undo, i: int)
    requires
        reaches(s.cells, s.log, s.version, undo),
        0 <= i < s.cells.len(),
        affected(s.cells[i], undo.counts),
    ensures
        ({
            let log = log_with(s.log, undo.id, undo.counts);
            let c = s.cells[i];
            undo_applied(s.cells, log, undo)[i] == (Cell {
                visible: shown(c.timestamp, c.deletions, log),
                max_undos: observing(c.max_undos, undo.id),
                ..c
            })
        }),
{
    let v = having_seen(undo.version, undo.counts.dom());
    let c = s.cells[i];
    lemma_having_seen(undo.version, undo.counts.dom(), local_of(c.timestamp));
    assert(seen(s.cells[i], v));
    lemma_looked_at(s.cells, v, undo.ranges, i);
    if !undo.counts.contains_key(local_of(c.timestamp)) {
        lemma_shown_then(c, s.log, undo.id, undo.counts, undo.version);
    }
}

/// An undo that reaches what its edits did leaves a settled buffer settled,
/// whether it undoes them or does them again, and whoever has made it.
pub proof fn law_undo_keeps_settled(s: State, undo: Undo, lamport: Lamport)
    requires
        settled(s.cells, s.log, s.version),
        reaches(s.cells, s.log, s.version, undo),
        !observes(s.version, undo.id),
    ensures
        ({
            let done = applied(s, OperationModel::Undo { undo, lamport });
            settled(done.cells, done.log, done.version)
        }),
{
    let v = having_seen(undo.version, undo.counts.dom());
    let log = log_with(s.log, undo.id, undo.counts);
    let now = undo_applied(s.cells, log, undo);
    assert forall|i: int| 0 <= i < now.len() implies (#[trigger] now[i]).visible == shown(
        now[i].timestamp,
        now[i].deletions,
        log,
    ) by {
        let c = s.cells[i];
        if affected(c, undo.counts) {
            lemma_reviewed(s, undo, i);
        } else {
            lemma_unaffected(c, s.log, undo.id, undo.counts);
        }
    }
    assert(alike(now, s.cells));
    assert(shows(now, log));
    lemma_undo_settles(s.cells, s.log, s.version, now, undo.id, undo.counts);
}

/// What an operation is to an undo that has not seen it.
proof fn lemma_unknown(undo: Undo, name: Local)
    requires
        !observes(having_seen(undo.version, undo.counts.dom()), name),
    ensures
        !observes(undo.version, name),
        !undo.counts.contains_key(name),
{
    if observes(undo.version, name) || undo.counts.dom().contains(name) {
        lemma_having_seen(undo.version, undo.counts.dom(), name);
    }
}

/// An edit that the undo has not seen is out of its way.
pub proof fn lemma_edit_keeps_reach(
    cells: Seq<Cell>,
    log: UndoLog,
    version: Version,
    e: EditModel,
    undo: Undo,
)
    requires
        reaches(cells, log, version, undo),
        fits_in(cells, e),
        !observes(having_seen(undo.version, undo.counts.dom()), local_of(e.timestamp)),
    ensures
        reaches(edit_done(cells, log, e), log, version, undo),
{
    if e.ranges.len() > 0 {
        let v = having_seen(undo.version, undo.counts.dom());
        let id = local_of(e.timestamp);
        let d = edit_done(cells, log, e);
        let m = marked(cells, log, e);
        lemma_unknown(undo, id);
        assert forall|l: int| 0 <= l < undo.ranges.len() implies ends_between(
            d,
            v,
            (#[trigger] undo.ranges[l]).1,
        ) || dominated(undo.ranges, l) by {
            let x = undo.ranges[l].1;
            if !dominated(undo.ranges, l) {
                assert(ends_between(cells, v, x));
                assert forall|y: int|
                    0 <= y < d.len() && seen(d[y], v) && #[trigger] seen_rank(d, v, y)
                        == x implies d[y].head by {
                    let place = lemma_old_cell(cells, log, e, v, y);
                    let i = place->0;
                    assert(seen_rank(cells, v, i) == x);
                }
            }
        }
        assert forall|y: int| 0 <= y < d.len() && affected(#[trigger] d[y], undo.counts) implies {
            &&& covers(undo.ranges, seen_rank(d, v, y))
            &&& !undo.counts.contains_key(local_of(d[y].timestamp)) ==> cell_shown_at(
                d[y],
                undo.version,
                log,
            )
        } by {
            let place = lemma_old_cell(cells, log, e, v, y);
            let i = place->0;
            let c = cells[i];
            assert(d[y] == m[i]);
            if !undo.counts.contains_key(local_of(c.timestamp)) {
                let del = choose|del: Local| #[trigger]
                    d[y].deletions.contains(del) && undo.counts.contains_key(del);
                assert(c.deletions.contains(del));
            }
            assert(affected(cells[i], undo.counts));
            assert forall|del: Local| #[trigger]
                d[y].deletions.contains(del) && cell_shown_at(
                    c,
                    undo.version,
                    log,
                ) implies !observes(undo.version, del) || undone_at(log, del, undo.version) by {
                if del != id {
                    assert(c.deletions.contains(del));
                }
            }
        }
    } else {
        lemma_no_ranges(cells, log, e);
    }
}

/// What stands at a place after an edit that a version has not seen: a cell that
/// was there before, or one of the edit.
proof fn lemma_old_cell(
    cells: Seq<Cell>,
    log: UndoLog,
    e: EditModel,
    v: Version,
    y: int,
) -> (place: Option<int>)
    requires
        placed_in(cells, e),
        !observes(v, local_of(e.timestamp)),
        0 <= y < edit_done(cells, log, e).len(),
    ensures
        match place {
            Some(i) => {
                &&& 0 <= i < cells.len()
                &&& edit_done(cells, log, e)[y] == marked(cells, log, e)[i]
                &&& seen_rank(edit_done(cells, log, e), v, y) == seen_rank(cells, v, i)
            },
            None => {
                &&& edit_done(cells, log, e)[y].timestamp == e.timestamp
                &&& edit_done(cells, log, e)[y].deletions == Set::<Local>::empty()
            },
        },
{
    let d = edit_done(cells, log, e);
    let m = marked(cells, log, e);
    let g = gaps_of(cells, log, e);
    lemma_places(cells, log, e);
    assert(unseen(g, v, m.len() as int));
    lemma_laid_at(m, g, m.len() as int);
    let i = lemma_stands(m, g, y, m.len() as int);
    lemma_laid_at(m, g, i);
    lemma_rank_laid(cells, m, g, v, i);
    if y < high(m, g, i) {
        let x = low(m, g, i);
        assert(d.subrange(x, high(m, g, i))[y - x] == g(i)[y - x]);
        None
    } else {
        Some(i)
    }
}

/// Whether an undo reaches what its edits did rests neither on what is shown nor
/// on what it has not seen.
pub proof fn lemma_bare_reach(
    a: Seq<Cell>,
    b: Seq<Cell>,
    x: UndoLog,
    y: UndoLog,
    v: Version,
    w: Version,
    undo: Undo,
)
    requires
        reaches(a, x, v, undo),
        bare(a) == bare(b),
        logs_agree_at(x, y, undo.version),
        forall|id: Local| #[trigger] undo.counts.contains_key(id) ==> observes(w, id),
    ensures
        reaches(b, y, w, undo),
{
    let known = having_seen(undo.version, undo.counts.dom());
    lemma_bare_cells(a, b);
    assert forall|l: int| 0 <= l < undo.ranges.len() implies ends_between(
        b,
        known,
        (#[trigger] undo.ranges[l]).1,
    ) || dominated(undo.ranges, l) by {
        let end = undo.ranges[l].1;
        if !dominated(undo.ranges, l) {
            assert(ends_between(a, known, end));
            assert forall|i: int|
                0 <= i < b.len() && seen(b[i], known) && #[trigger] seen_rank(b, known, i)
                    == end implies b[i].head by {
                lemma_rank_same(a, b, known, i);
                assert(a[i].timestamp == b[i].timestamp);
                assert(seen_rank(a, known, i) == end);
            }
        }
    }
    assert forall|i: int| 0 <= i < b.len() && affected(#[trigger] b[i], undo.counts) implies {
        &&& covers(undo.ranges, seen_rank(b, known, i))
        &&& !undo.counts.contains_key(local_of(b[i].timestamp)) ==> cell_shown_at(
            b[i],
            undo.version,
            y,
        )
    } by {
        lemma_rank_same(a, b, known, i);
        let c = a[i];
        assert(c.timestamp == b[i].timestamp && c.deletions == b[i].deletions);
        assert(affected(a[i], undo.counts));
        lemma_undone_at_same(x, y, undo.version, local_of(c.timestamp));
        assert forall|d: Local| c.deletions.contains(d) implies undone_at(x, d, undo.version)
            == undone_at(y, d, undo.version) by {
            lemma_undone_at_same(x, y, undo.version, d);
        }
    }
}

/// An operation that the undo has not seen is out of its way.
pub proof fn lemma_other_keeps_reach(s: State, op: OperationModel, undo: Undo)
    requires
        reaches(s.cells, s.log, s.version, undo),
        changes_text(op),
        op matches OperationModel::Edit(e) ==> fits_in(s.cells, e),
        !observes(s.version, name_of(op)),
        !observes(having_seen(undo.version, undo.counts.dom()), name_of(op)),
    ensures
        reaches(applied(s, op).cells, applied(s, op).log, applied(s, op).version, undo),
{
    let next = applied(s, op);
    lemma_applied(s, op);
    lemma_unknown(undo, name_of(op));
    assert forall|id: Local| #[trigger] undo.counts.contains_key(id) implies observes(
        next.version,
        id,
    ) by {
        assert(observes(s.version, id));
    }
    let cells = match op {
        OperationModel::Edit(e) => {
            lemma_edit_keeps_reach(s.cells, s.log, s.version, e, undo);
            edit_done(s.cells, s.log, e)
        },
        _ => s.cells,
    };
    lemma_bare_reach(cells, next.cells, s.log, next.log, s.version, next.version, undo);
}

/// None of the operations has been seen by the undo.
pub open spec fn unknown_to(ops: Seq<OperationModel>, undo: Undo) -> bool {
    forall|i: int|
        0 <= i < ops.len() ==> !observes(
            having_seen(undo.version, undo.counts.dom()),
            #[trigger] name_of(ops[i]),
        )
}

/// An undo that reaches what its edits did still does so after whatever edits
/// and undos others have made without its being told of them.
pub proof fn law_reach_outlasts_others(s: State, ops: Seq<OperationModel>, undo: Undo)
    requires
        reaches(s.cells, s.log, s.version, undo),
        takes(s, ops),
        unknown_to(ops, undo),
    ensures
        reaches(took(s, ops).cells, took(s, ops).log, took(s, ops).version, undo),
    decreases ops.len(),
{
    if ops.len() > 0 {
        let op = ops[0];
        let rest = ops.skip(1);
        let next = applied(s, op);
        assert(!observes(having_seen(undo.version, undo.counts.dom()), name_of(ops[0])));
        lemma_other_keeps_reach(s, op, undo);
        assert forall|i: int| 0 <= i < rest.len() implies !observes(
            having_seen(undo.version, undo.counts.dom()),
            #[trigger] name_of(rest[i]),
        ) by {
            assert(rest[i] == ops[i + 1]);
            assert(!observes(
                having_seen(undo.version, undo.counts.dom()),
                name_of(ops[i + 1]),
            ));
        }
        law_reach_outlasts_others(next, rest, undo);
    }
}

/// Each of the undos reaches what its edits did when it comes.
pub open spec fn undos_reach(s: State, ops: Seq<OperationModel>) -> bool
    decreases ops.len(),
{
    ops.len() > 0 ==> {
        &&& ops[0] matches OperationModel::Undo { undo, lamport } ==> reaches(
            s.cells,
            s.log,
            s.version,
            undo,
        )
        &&& undos_reach(applied(s, ops[0]), ops.skip(1))
    }
}

/// A settled buffer stays settled while it receives edits, and undos that reach
/// what their edits did.
pub proof fn law_operations_keep_settled(s: State, ops: Seq<OperationModel>)
    requires
        settled(s.cells, s.log, s.version),
        takes(s, ops),
        undos_reach(s, ops),
    ensures
        settled(took(s, ops).cells, took(s, ops).log, took(s, ops).version),
    decreases ops.len(),
{
    if ops.len() > 0 {
        match ops[0] {
            OperationModel::Edit(e) => {
                law_remote_edit_keeps_settled(s, e);
            },
            OperationModel::Undo { undo, lamport } => {
                law_undo_keeps_settled(s, undo, lamport);
            },
            _ => {},
        }
        law_operations_keep_settled(applied(s, ops[0]), ops.skip(1));
    }
}

/// Two replicas that started from the same settled state, and have received the
/// same edits and undos in whatever orders they could be applied in, show the
/// same text, if each undo reached what its edits did.
pub proof fn law_replicas_show_same_text(
    s: State,
    first: Seq<OperationModel>,
    second: Seq<OperationModel>,
)
    requires
        settled(s.cells, s.log, s.version),
        takes(s, first),
        takes(s, second),
        at_different_times(edits_in(first)),
        at_different_times(edits_in(second)),
        forall|op: OperationModel| #[trigger] first.contains(op) <==> second.contains(op),
        undos_reach(s, first),
        undos_reach(s, second),
    ensures
        took(s, first).text() == took(s, second).text(),
{
    law_operations_keep_settled(s, first);
    law_operations_keep_settled(s, second);
    law_replicas_converge_with_undos(s, first, second);
}

/// What undoes a transaction reaches what its edits did, if they were all made
/// without an operation of another replica in between.
pub proof fn law_undo_reaches_transaction(s: State, changes: Seq<Change>, t: TransactionModel)
    requires
        settled(s.cells, s.log, s.version),
        !observes(s.version, s.local_clock),
        can_edit_in_turn(s, changes),
        holds_edits(t, s, changes),
    ensures
        ({
            let now = edited_in_turn(s, changes);
            reaches(now.cells, now.log, now.version, undo_of(now, t))
        }),
{
    let now = edited_in_turn(s, changes);
    let names = names_in_turn(s, changes);
    let undo = undo_of(now, t);
    let v = having_seen(undo.version, undo.counts.dom());
    let n = names.len() as int;
    lemma_gathered(s, changes);
    lemma_names_seen(s, changes);
    lemma_counts(now.log, names, n);
    assert(names.take(n) =~= names);
    assert(all_seen(now.cells, v)) by {
        assert forall|i: int| 0 <= i < now.cells.len() implies observes(
            v,
            local_of((#[trigger] now.cells[i]).timestamp),
        ) by {
            let id = local_of(now.cells[i].timestamp);
            if names.contains(id) {
                assert(undo.counts.contains_key(id));
            }
            lemma_having_seen(undo.version, undo.counts.dom(), id);
        }
    }
    assert forall|l: int| 0 <= l < t.ranges.len() implies ends_between(
        now.cells,
        v,
        (#[trigger] t.ranges[l]).1,
    ) || dominated(t.ranges, l) by {
        let x = t.ranges[l].1;
        assert(boundary(now.cells, x) || dominated(t.ranges, l));
        lemma_ends_between(now.cells, v, x);
    }
    assert forall|i: int|
        0 <= i < now.cells.len() && affected(#[trigger] now.cells[i], undo.counts) implies {
        &&& covers(t.ranges, seen_rank(now.cells, v, i))
        &&& !undo.counts.contains_key(local_of(now.cells[i].timestamp)) ==> cell_shown_at(
            now.cells[i],
            undo.version,
            now.log,
        )
    } by {
        let c = now.cells[i];
        lemma_all_seen(now.cells, v, i);
        if !undo.counts.contains_key(local_of(c.timestamp)) {
            let d = choose|d: Local| #[trigger]
                c.deletions.contains(d) && undo.counts.contains_key(d);
            assert(names.contains(d));
        }
        assert(theirs(now.cells[i], names));
    }
}

/// A replica that has made some edits, and has then been told of what others did
/// without having seen them, undoes its edits and is settled after it.
pub proof fn law_undo_after_others_keeps_settled(
    s: State,
    changes: Seq<Change>,
    t: TransactionModel,
    ops: Seq<OperationModel>,
)
    requires
        settled(s.cells, s.log, s.version),
        !observes(s.version, s.local_clock),
        can_edit_in_turn(s, changes),
        holds_edits(t, s, changes),
        takes(edited_in_turn(s, changes), ops),
        undos_reach(edited_in_turn(s, changes), ops),
        unknown_to(ops, undo_of(edited_in_turn(s, changes), t)),
        !observes(
            took(edited_in_turn(s, changes), ops).version,
            took(edited_in_turn(s, changes), ops).local_clock,
        ),
    ensures
        ({
            let undone = undone_or_redone(took(edited_in_turn(s, changes), ops), t);
            settled(undone.cells, undone.log, undone.version)
        }),
{
    let edited = edited_in_turn(s, changes);
    let now = took(edited, ops);
    lemma_gathered(s, changes);
    law_undo_reaches_transaction(s, changes, t);
    law_reach_outlasts_others(edited, ops, undo_of(edited, t));
    law_operations_keep_settled(edited, ops);
    let n = t.edits.len() as int;
    lemma_counts(edited.log, t.edits, n);
    lemma_counts(now.log, t.edits, n);
    let undo = undo_of(now, t);
    assert(undo.counts.dom() =~= undo_of(edited, t).counts.dom());
    lemma_took(edited, ops);
    lemma_sees_more(s, changes);
    let r = now.local_clock.replica_id;
    assert(seen_of(now.version, r) >= seen_of(edited.version, r));
    assert(seen_of(edited.version, r) >= seen_of(s.version, r));
    lemma_same_reach(now, undo_of(edited, t), undo);
    law_undo_keeps_settled(now, undo, now.lamport_clock);
}

/// Undos of the same edits reach as far.
pub proof fn lemma_same_reach(s: State, a: Undo, b: Undo)
    requires
        reaches(s.cells, s.log, s.version, a),
        a.version == b.version,
        a.ranges == b.ranges,
        a.counts.dom() == b.counts.dom(),
        !observes(b.version, b.id),
    ensures
        reaches(s.cells, s.log, s.version, b),
{
    assert forall|id: Local| #[trigger] b.counts.contains_key(id) implies a.counts.contains_key(
        id,
    ) by {
        assert(b.counts.dom().contains(id));
    }
    assert forall|i: int|
        0 <= i < s.cells.len() && affected(#[trigger] s.cells[i], b.counts) implies affected(
        s.cells[i],
        a.counts,
    ) && (a.counts.contains_key(local_of(s.cells[i].timestamp)) ==> b.counts.contains_key(
        local_of(s.cells[i].timestamp),
    )) by {
        let id = local_of(s.cells[i].timestamp);
        if a.counts.contains_key(id) {
            assert(b.counts.dom().contains(id));
        }
        if !b.counts.contains_key(id) {
            let d = choose|d: Local| #[trigger]
                s.cells[i].deletions.contains(d) && b.counts.contains_key(d);
            assert(a.counts.contains_key(d));
        }
    }
}

/// Undoing or redoing a transaction is a new operation: the version has seen more
/// than before, and the clock is ahead of it again.
pub proof fn law_undo_moves_version_on(s: State, t: TransactionModel)
    requires
        clock_ahead(s),
        s.local_clock.value < u32::MAX,
    ensures
        exceeds(undone_or_redone(s, t).version, s.version),
        clock_ahead(undone_or_redone(s, t)),
{
    let id = s.local_clock;
    let now = undone_or_redone(s, t);
    assert(seen_of(now.version, id.replica_id) > seen_of(s.version, id.replica_id));
    assert(!includes(s.version, now.version));
}

/// Undoing a transaction and doing it again gives the text that was there before,
/// whatever else has happened since its edits, if the undo reaches what they did.
pub proof fn law_redo_takes_back_undo(s: State, t: TransactionModel)
    requires
        settled(s.cells, s.log, s.version),
        reaches(s.cells, s.log, s.version, undo_of(s, t)),
        !observes(s.version, s.local_clock),
        s.local_clock.value < u32::MAX - 1,
        forall|id: Local| #[trigger]
            t.edits.contains(id) ==> largest_count(undos_of(s.log, id)) < u32::MAX - 1,
    ensures
        ({
            let back = undone_or_redone(s, t);
            let again = undone_or_redone(back, t);
            &&& again.text() == s.text()
            &&& exceeds(back.version, s.version)
            &&& exceeds(again.version, back.version)
            &&& exceeds(again.version, s.version)
        }),
{
    law_undo_moves_version_on(s, t);
    law_undo_moves_version_on(undone_or_redone(s, t), t);

    let undo = undo_of(s, t);
    let op = OperationModel::Undo { undo, lamport: s.lamport_clock };
    let back = undone_or_redone(s, t);
    let redo = undo_of(back, t);
    let again = undone_or_redone(back, t);
    let n = t.edits.len() as int;
    lemma_counts(s.log, t.edits, n);
    lemma_counts(back.log, t.edits, n);
    assert(t.edits.take(n) =~= t.edits);
    law_undo_keeps_settled(s, undo, s.lamport_clock);
    // The undo does not know of itself.
    let known = having_seen(undo.version, undo.counts.dom());
    if observes(known, undo.id) {
        lemma_having_seen_only(undo.version, undo.counts.dom(), undo.id);
        let d = choose|d: Local| #[trigger]
            undo.counts.dom().contains(d) && d.replica_id == undo.id.replica_id && d.value
                >= undo.id.value;
        assert(undo.counts.contains_key(d));
        assert(observes(s.version, d));
    }
    lemma_other_keeps_reach(s, op, undo);
    assert(redo.counts.dom() =~= undo.counts.dom());
    lemma_same_reach(back, undo, redo);
    law_undo_keeps_settled(back, redo, back.lamport_clock);
    // What was undone is undone, and what was not is not.
    assert forall|id: Local| undone(again.log, id) == undone(s.log, id) by {
        lemma_counted(s.log, undo.id, undo.counts, id);
        lemma_counted(back.log, redo.id, redo.counts, id);
        if t.edits.contains(id) {
            assert(undo.counts.contains_key(id) && redo.counts.contains_key(id));
            assert(largest_count(undos_of(s.log, id)) < u32::MAX - 1);
        } else {
            assert(!undo.counts.contains_key(id) && !redo.counts.contains_key(id));
        }
    }
    assert forall|i: int| 0 <= i < s.cells.len() implies (#[trigger] again.cells[i]).visible
        == s.cells[i].visible && again.cells[i].byte == s.cells[i].byte by {
        let c = again.cells[i];
        let d = s.cells[i];
        assert(c.timestamp == d.timestamp && c.deletions == d.deletions);
        assert(c.visible == shown(c.timestamp, c.deletions, again.log));
        assert(d.visible == shown(d.timestamp, d.deletions, s.log));
    }
    lemma_same_visible(again.cells, s.cells);
}

/// How often an edit has been undone and done again once one more is counted.
proof fn lemma_counted(log: UndoLog, undo_id: Local, counts: Map<Local, u32>, id: Local)
    ensures
        ({
            let past = largest_count(undos_of(log, id));
            largest_count(undos_of(log_with(log, undo_id, counts), id)) == if counts.contains_key(
                id,
            ) && counts[id] > past {
                counts[id]
            } else {
                past
            }
        }),
{
    if counts.contains_key(id) {
        let before = undos_of(log, id);
        assert(before.push((undo_id, counts[id])).drop_last() =~= before);
    } else {
        assert(undos_of(log_with(log, undo_id, counts), id) == undos_of(log, id));
    }
}

/// A buffer that has been edited has seen what it had seen before.
pub proof fn lemma_sees_more(s: State, changes: Seq<Change>)
    ensures
        includes(edited_in_turn(s, changes).version, s.version),
    decreases changes.len(),
{
    if changes.len() > 0 {
        lemma_sees_more(s, changes.drop_last());
        let before = edited_in_turn(s, changes.drop_last());
        assert forall|r: ReplicaId| seen_of(
            edited_in_turn(s, changes).version,
            r,
        ) >= #[trigger] seen_of(s.version, r) by {
            assert(seen_of(before.version, r) >= seen_of(s.version, r));
        }
    }
}

} // verus!
