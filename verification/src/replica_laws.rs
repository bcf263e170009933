//! Laws of replicas that undo and redo: what they hold after they have received
//! the same edits and undos.

use vstd::prelude::*;

use crate::clock::{
    Lamport, Local, ReplicaId, Version, after, includes, observes, observing, same_version, seen_of,
};
use crate::converge::{edit_done, lemma_places, new_cells, placed_in, plan_of, unaware};
use crate::document::{Cell, Doc, seen_rank};
use crate::edit_laws::{law_local_edit_lands, law_replay_of_local_edit, lemma_same_visible};
use crate::fragment::{lamport_of, local_of, shown};
use crate::operation::{EditModel, OperationModel, bytes_of};
use crate::replicas::{
    at_different_times, edits_done, edits_placed, fits_in, in_causal_order, law_edits_converge,
    lemma_applied_edit, lemma_no_ranges,
};
use crate::state::{State, applied, can_apply, edit_operation, edited_within, op_fits};
use crate::undo_laws::{can_edit, lemma_undone_now, settled, shows};
use crate::undo_map::{UndoLog, largest_count, largest_count_at, undone, undone_at, undos_of};
use crate::weave::{
    cell_shown_at, clear, lemma_seek, lemma_skip_stops, remote_at, seek, seek_from, skip_newer,
    touched, woven,
};

verus! {

/// A cell, but for whether it is shown and for what has been undone around it.
pub open spec fn bare_cell(c: Cell) -> Cell {
    Cell { visible: true, max_undos: Map::empty(), ..c }
}

/// Cells, but for which of them are shown and for what has been undone around
/// them.
pub open spec fn bare(cells: Seq<Cell>) -> Seq<Cell> {
    cells.map_values(|c: Cell| bare_cell(c))
}

/// As far as a version had seen, the logs hold the same undos.
pub open spec fn logs_agree_at(a: UndoLog, b: UndoLog, v: Version) -> bool {
    forall|id: Local, entry: (Local, u32)|
        observes(v, entry.0) ==> (#[trigger] undos_of(a, id).contains(entry) <==> undos_of(
            b,
            id,
        ).contains(entry))
}

/// The logs hold the same undos.
pub open spec fn logs_agree(a: UndoLog, b: UndoLog) -> bool {
    forall|id: Local, entry: (Local, u32)| #[trigger]
        undos_of(a, id).contains(entry) <==> undos_of(b, id).contains(entry)
}

/// The largest count is that of an entry, and no entry has a larger one.
proof fn lemma_largest_at(s: Seq<(Local, u32)>, v: Version)
    ensures
        forall|entry: (Local, u32)| #[trigger]
            s.contains(entry) && observes(v, entry.0) ==> entry.1 <= largest_count_at(s, v),
        largest_count_at(s, v) > 0 ==> exists|entry: (Local, u32)| #[trigger]
            s.contains(entry) && observes(v, entry.0) && entry.1 == largest_count_at(s, v),
    decreases s.len(),
{
    if s.len() > 0 {
        let t = s.drop_last();
        lemma_largest_at(t, v);
        assert forall|entry: (Local, u32)| #[trigger] s.contains(entry) <==> t.contains(entry)
            || entry == s.last() by {
            if s.contains(entry) {
                let i = s.index_of(entry);
                if i < t.len() {
                    assert(t[i] == entry);
                }
            }
            if t.contains(entry) {
                let i = t.index_of(entry);
                assert(s[i] == entry);
            }
            assert(s[s.len() - 1] == s.last());
        }
        if largest_count_at(s, v) > 0 {
            if largest_count_at(s, v) == largest_count_at(t, v) {
                let entry = choose|entry: (Local, u32)| #[trigger]
                    t.contains(entry) && observes(v, entry.0) && entry.1 == largest_count_at(t, v);
                assert(s.contains(entry));
            } else {
                assert(s.contains(s.last()));
            }
        }
    }
}

proof fn lemma_largest(s: Seq<(Local, u32)>)
    ensures
        forall|entry: (Local, u32)| #[trigger] s.contains(entry) ==> entry.1 <= largest_count(s),
        largest_count(s) > 0 ==> exists|entry: (Local, u32)| #[trigger]
            s.contains(entry) && entry.1 == largest_count(s),
    decreases s.len(),
{
    if s.len() > 0 {
        let t = s.drop_last();
        lemma_largest(t);
        assert forall|entry: (Local, u32)| #[trigger] s.contains(entry) <==> t.contains(entry)
            || entry == s.last() by {
            if s.contains(entry) {
                let i = s.index_of(entry);
                if i < t.len() {
                    assert(t[i] == entry);
                }
            }
            if t.contains(entry) {
                let i = t.index_of(entry);
                assert(s[i] == entry);
            }
            assert(s[s.len() - 1] == s.last());
        }
        if largest_count(s) > 0 {
            if largest_count(s) == largest_count(t) {
                let entry = choose|entry: (Local, u32)| #[trigger]
                    t.contains(entry) && entry.1 == largest_count(t);
                assert(s.contains(entry));
            } else {
                assert(s.contains(s.last()));
            }
        }
    }
}

pub proof fn lemma_undone_at_same(a: UndoLog, b: UndoLog, v: Version, id: Local)
    requires
        logs_agree_at(a, b, v),
    ensures
        undone_at(a, id, v) == undone_at(b, id, v),
{
    let s = undos_of(a, id);
    let t = undos_of(b, id);
    lemma_largest_at(s, v);
    lemma_largest_at(t, v);
    if largest_count_at(s, v) > 0 {
        let entry = choose|entry: (Local, u32)| #[trigger]
            s.contains(entry) && observes(v, entry.0) && entry.1 == largest_count_at(s, v);
        assert(undos_of(a, id).contains(entry));
        assert(t.contains(entry));
    }
    if largest_count_at(t, v) > 0 {
        let entry = choose|entry: (Local, u32)| #[trigger]
            t.contains(entry) && observes(v, entry.0) && entry.1 == largest_count_at(t, v);
        assert(undos_of(a, id).contains(entry));
        assert(s.contains(entry));
    }
}

proof fn lemma_undone_same(a: UndoLog, b: UndoLog, id: Local)
    requires
        logs_agree(a, b),
    ensures
        undone(a, id) == undone(b, id),
{
    let s = undos_of(a, id);
    let t = undos_of(b, id);
    lemma_largest(s);
    lemma_largest(t);
    if largest_count(s) > 0 {
        let entry = choose|entry: (Local, u32)| #[trigger]
            s.contains(entry) && entry.1 == largest_count(s);
        assert(undos_of(a, id).contains(entry));
        assert(t.contains(entry));
    }
    if largest_count(t) > 0 {
        let entry = choose|entry: (Local, u32)| #[trigger]
            t.contains(entry) && entry.1 == largest_count(t);
        assert(undos_of(a, id).contains(entry));
        assert(s.contains(entry));
    }
}

/// The cells were inserted at the same times.
pub open spec fn same_times(a: Seq<Cell>, b: Seq<Cell>) -> bool {
    &&& a.len() == b.len()
    &&& forall|i: int| 0 <= i < a.len() ==> (#[trigger] a[i]).timestamp == b[i].timestamp
}

pub proof fn lemma_rank_same(a: Seq<Cell>, b: Seq<Cell>, v: Version, i: int)
    requires
        same_times(a, b),
        0 <= i <= a.len(),
    ensures
        seen_rank(a, v, i) == seen_rank(b, v, i),
    decreases i,
{
    if i > 0 {
        lemma_rank_same(a, b, v, i - 1);
        assert(a[i - 1].timestamp == b[i - 1].timestamp);
    }
}

pub proof fn lemma_seek_same(a: Seq<Cell>, b: Seq<Cell>, v: Version, offset: int, p: int)
    requires
        same_times(a, b),
        0 <= p <= a.len(),
    ensures
        seek_from(a, v, offset, p) == seek_from(b, v, offset, p),
        0 <= seek_from(a, v, offset, p) <= a.len(),
    decreases a.len() - p,
{
    lemma_rank_same(a, b, v, p);
    if p < a.len() {
        lemma_seek_same(a, b, v, offset, p + 1);
    }
}

pub proof fn lemma_skip_same(a: Seq<Cell>, b: Seq<Cell>, lamport: Lamport, p: int)
    requires
        same_times(a, b),
        0 <= p <= a.len(),
    ensures
        skip_newer(a, lamport, p) == skip_newer(b, lamport, p),
    decreases a.len() - p,
{
    if p < a.len() {
        assert(a[p].timestamp == b[p].timestamp);
        lemma_skip_same(a, b, lamport, p + 1);
    }
}

pub proof fn lemma_bare_cells(a: Seq<Cell>, b: Seq<Cell>)
    requires
        bare(a) == bare(b),
    ensures
        same_times(a, b),
        forall|i: int|
            0 <= i < a.len() ==> (#[trigger] a[i]).deletions == b[i].deletions && a[i].head
                == b[i].head && a[i].byte == b[i].byte,
{
    assert(bare(a).len() == a.len());
    assert(bare(b).len() == b.len());
    assert forall|i: int| 0 <= i < a.len() implies (#[trigger] a[i]).timestamp == b[i].timestamp
        && a[i].deletions == b[i].deletions && a[i].head == b[i].head && a[i].byte
        == b[i].byte by {
        assert(bare(a)[i] == bare_cell(a[i]));
        assert(bare(b)[i] == bare_cell(b[i]));
    }
}

/// What an edit does depends neither on what is shown nor on undos that it has
/// not seen.
proof fn lemma_plan_same(a: Seq<Cell>, b: Seq<Cell>, x: UndoLog, y: UndoLog, e: EditModel)
    requires
        bare(a) == bare(b),
        logs_agree_at(x, y, e.version),
    ensures
        plan_of(a, x, e) == plan_of(b, y, e),
        placed_in(a, e) == placed_in(b, e),
{
    lemma_bare_cells(a, b);
    let v = e.version;
    let lamport = lamport_of(e.timestamp);
    let p = plan_of(a, x, e);
    let q = plan_of(b, y, e);
    assert forall|k: int| 0 <= k < e.ranges.len() implies p.at[k] == q.at[k] && p.ends[k]
        == q.ends[k] by {
        lemma_seek_same(a, b, v, e.ranges[k].0, 0);
        lemma_seek_same(a, b, v, e.ranges[k].1, 0);
        lemma_skip_same(a, b, lamport, seek(a, v, e.ranges[k].0));
    }
    assert(p.at =~= q.at);
    assert(p.ends =~= q.ends);
    assert forall|i: int| p.hits.contains(i) <==> q.hits.contains(i) by {
        if 0 <= i < a.len() {
            lemma_rank_same(a, b, v, i);
            lemma_undone_at_same(x, y, v, local_of(a[i].timestamp));
            assert(a[i].deletions == b[i].deletions);
            assert forall|d: Local| a[i].deletions.contains(d) implies undone_at(x, d, v)
                == undone_at(y, d, v) by {
                lemma_undone_at_same(x, y, v, d);
            }
            assert(cell_shown_at(a[i], v, x) == cell_shown_at(b[i], v, y));
        }
    }
    assert(p.hits =~= q.hits);
    lemma_rank_same(a, b, v, a.len() as int);
    assert forall|k: int| 0 <= k < e.ranges.len() && 0 <= e.ranges[k].0 <= e.ranges[k].1
        <= seen_rank(a, v, a.len() as int) implies clear(
        a,
        v,
        lamport,
        (#[trigger] e.ranges[k]).0,
    ) == clear(b, v, lamport, e.ranges[k].0) by {
        lemma_clear_same(a, b, v, lamport, e.ranges[k].0);
    }
}

pub proof fn lemma_clear_same(a: Seq<Cell>, b: Seq<Cell>, v: Version, lamport: Lamport, offset: int)
    requires
        same_times(a, b),
        0 <= offset <= seen_rank(a, v, a.len() as int),
    ensures
        clear(a, v, lamport, offset) == clear(b, v, lamport, offset),
{
    lemma_seek_same(a, b, v, offset, 0);
    lemma_seek(a, v, offset);
    let p = seek(a, v, offset);
    lemma_skip_same(a, b, lamport, p);
    lemma_skip_stops(a, lamport, p);
    lemma_rank_same(a, b, v, remote_at(a, v, lamport, offset));
}

proof fn lemma_bare_woven(cells: Seq<Cell>, at: Seq<int>, text: Seq<Cell>, k: int, p: int)
    requires
        0 <= k <= at.len(),
        0 <= p <= cells.len(),
        forall|j: int| 0 <= j < k ==> 0 <= #[trigger] at[j] <= p,
        forall|i: int, j: int| 0 <= i < j < k ==> #[trigger] at[i] <= #[trigger] at[j],
    ensures
        bare(woven(cells, at, text, k, p)) == woven(bare(cells), at, bare(text), k, p),
    decreases k,
{
    let from = if k > 0 {
        at[k - 1]
    } else {
        0
    };
    assert(bare(cells.subrange(from, p)) =~= bare(cells).subrange(from, p));
    if k > 0 {
        assert forall|j: int| 0 <= j < k - 1 implies 0 <= #[trigger] at[j] <= at[k - 1] by {
            assert(at[j] <= at[k - 1]);
        }
        lemma_bare_woven(cells, at, text, k - 1, at[k - 1]);
        let w = woven(cells, at, text, k - 1, at[k - 1]);
        assert(bare(w + text + cells.subrange(from, p)) =~= bare(w) + bare(text) + bare(
            cells.subrange(from, p),
        ));
    }
}

/// An edit does the same to documents that differ in nothing but what they
/// show.
proof fn lemma_bare_edit(a: Seq<Cell>, b: Seq<Cell>, x: UndoLog, y: UndoLog, e: EditModel)
    requires
        bare(a) == bare(b),
        logs_agree_at(x, y, e.version),
        fits_in(a, e),
    ensures
        fits_in(b, e),
        bare(edit_done(a, x, e)) == bare(edit_done(b, y, e)),
{
    if e.ranges.len() == 0 {
        lemma_no_ranges(a, x, e);
        lemma_no_ranges(b, y, e);
    } else {
        lemma_plan_same(a, b, x, y, e);
        lemma_bare_cells(a, b);
        lemma_places(a, x, e);
        let plan = plan_of(a, x, e);
        let id = local_of(e.timestamp);
        let m = touched(a, plan, id);
        let n = touched(b, plan, id);
        assert forall|i: int| 0 <= i < a.len() implies bare(m)[i] == bare(n)[i] by {
            assert(a[i].timestamp == b[i].timestamp);
        }
        assert(bare(m) =~= bare(n));
        lemma_bare_woven(m, plan.at, new_cells(e), plan.at.len() as int, a.len() as int);
        lemma_bare_woven(n, plan.at, new_cells(e), plan.at.len() as int, b.len() as int);
    }
}

/// Edits do the same to documents that differ in nothing but what they show.
pub proof fn lemma_bare_edits(
    a: Seq<Cell>,
    b: Seq<Cell>,
    x: UndoLog,
    y: UndoLog,
    edits: Seq<EditModel>,
)
    requires
        bare(a) == bare(b),
        forall|i: int| 0 <= i < edits.len() ==> logs_agree_at(x, y, (#[trigger] edits[i]).version),
        edits_placed(a, x, edits),
    ensures
        edits_placed(b, y, edits),
        bare(edits_done(a, x, edits)) == bare(edits_done(b, y, edits)),
    decreases edits.len(),
{
    if edits.len() > 0 {
        let rest = edits.skip(1);
        lemma_bare_edit(a, b, x, y, edits[0]);
        assert forall|i: int| 0 <= i < rest.len() implies logs_agree_at(
            x,
            y,
            (#[trigger] rest[i]).version,
        ) by {
            assert(rest[i] == edits[i + 1]);
        }
        lemma_bare_edits(
            edit_done(a, x, edits[0]),
            edit_done(b, y, edits[0]),
            x,
            y,
            rest,
        );
    }
}

/// The operation is an edit or an undo.
pub open spec fn changes_text(op: OperationModel) -> bool {
    op is Edit || op is Undo
}

/// The name of an edit or an undo.
pub open spec fn name_of(op: OperationModel) -> Local {
    match op {
        OperationModel::Edit(edit) => local_of(edit.timestamp),
        OperationModel::Undo { undo, lamport } => undo.id,
        _ => arbitrary(),
    }
}

/// A buffer after it has received some edits and undos of other replicas, one
/// after the other.
pub open spec fn took(s: State, ops: Seq<OperationModel>) -> State
    decreases ops.len(),
{
    if ops.len() == 0 {
        s
    } else {
        took(applied(s, ops[0]), ops.skip(1))
    }
}

/// Each of the operations is an edit or an undo, can be applied when it comes,
/// fits, and is new; an edit names places of the text.
pub open spec fn takes(s: State, ops: Seq<OperationModel>) -> bool
    decreases ops.len(),
{
    ops.len() > 0 ==> {
        &&& changes_text(ops[0])
        &&& can_apply(s, ops[0])
        &&& op_fits(s, ops[0])
        &&& ops[0] matches OperationModel::Edit(e) ==> fits_in(s.cells, e)
        &&& !observes(s.version, name_of(ops[0]))
        &&& takes(applied(s, ops[0]), ops.skip(1))
    }
}

/// The edits among some operations.
pub open spec fn edits_in(ops: Seq<OperationModel>) -> Seq<EditModel>
    decreases ops.len(),
{
    if ops.len() == 0 {
        Seq::empty()
    } else {
        match ops[0] {
            OperationModel::Edit(edit) => seq![edit] + edits_in(ops.skip(1)),
            _ => edits_in(ops.skip(1)),
        }
    }
}

pub proof fn lemma_edits_in(ops: Seq<OperationModel>, e: EditModel)
    ensures
        edits_in(ops).contains(e) <==> ops.contains(OperationModel::Edit(e)),
    decreases ops.len(),
{
    let op = OperationModel::Edit(e);
    if ops.len() > 0 {
        let rest = ops.skip(1);
        lemma_edits_in(rest, e);
        let all = edits_in(ops);
        let others = edits_in(rest);
        if all.contains(e) {
            let i = all.index_of(e);
            if ops[0] is Edit {
                if i > 0 {
                    assert(others[i - 1] == e);
                    assert(others.contains(e));
                } else {
                    assert(ops[0] == op);
                }
            }
            if others.contains(e) {
                let k = rest.index_of(op);
                assert(ops[k + 1] == op);
            }
        }
        if ops.contains(op) {
            let k = ops.index_of(op);
            if k > 0 {
                assert(rest[k - 1] == op);
                assert(rest.contains(op));
                let i = others.index_of(e);
                if ops[0] is Edit {
                    assert(all[i + 1] == e);
                } else {
                    assert(all[i] == e);
                }
            } else {
                assert(all[0] == e);
            }
        }
    }
}

/// The log holds an undo that one of some operations has made.
pub open spec fn undid(ops: Seq<OperationModel>, id: Local, entry: (Local, u32)) -> bool {
    exists|i: int| 0 <= i < ops.len() && #[trigger] undoes(ops[i], id, entry)
}

/// The operation makes an entry in the log.
pub open spec fn undoes(op: OperationModel, id: Local, entry: (Local, u32)) -> bool {
    op matches OperationModel::Undo { undo, lamport } && undo.id == entry.0
        && undo.counts.contains_key(id) && undo.counts[id] == entry.1
}

proof fn lemma_undid_rest(ops: Seq<OperationModel>, id: Local, entry: (Local, u32))
    requires
        ops.len() > 0,
    ensures
        undid(ops, id, entry) <==> undoes(ops[0], id, entry) || undid(ops.skip(1), id, entry),
{
    let rest = ops.skip(1);
    if undid(ops, id, entry) && !undoes(ops[0], id, entry) {
        let i = choose|i: int| 0 <= i < ops.len() && #[trigger] undoes(ops[i], id, entry);
        assert(undoes(rest[i - 1], id, entry));
    }
    if undid(rest, id, entry) {
        let i = choose|i: int| 0 <= i < rest.len() && #[trigger] undoes(rest[i], id, entry);
        assert(undoes(ops[i + 1], id, entry));
    }
}

/// What one operation does to the log and to the cells but for what is shown.
pub proof fn lemma_applied(s: State, op: OperationModel)
    requires
        changes_text(op),
        op matches OperationModel::Edit(e) ==> fits_in(s.cells, e),
        !observes(s.version, name_of(op)),
    ensures
        ({
            let next = applied(s, op);
            &&& next.version == observing(s.version, name_of(op))
            &&& forall|id: Local, entry: (Local, u32)| #[trigger]
                undos_of(next.log, id).contains(entry) <==> undos_of(s.log, id).contains(entry)
                    || undoes(op, id, entry)
            &&& match op {
                OperationModel::Edit(edit) => next.cells == edit_done(s.cells, s.log, edit)
                    && next.log == s.log,
                _ => bare(next.cells) == bare(s.cells),
            }
        }),
{
    let next = applied(s, op);
    match op {
        OperationModel::Edit(edit) => {
            lemma_applied_edit(s, edit);
        },
        OperationModel::Undo { undo, lamport } => {
            assert(bare(next.cells) =~= bare(s.cells));
            assert forall|id: Local, entry: (Local, u32)| #[trigger]
                undos_of(next.log, id).contains(entry) <==> undos_of(s.log, id).contains(entry)
                    || undoes(op, id, entry) by {
                let before = undos_of(s.log, id);
                let now = undos_of(next.log, id);
                if undo.counts.contains_key(id) {
                    let more = (undo.id, undo.counts[id]);
                    assert(now == before.push(more));
                    if now.contains(entry) {
                        let i = now.index_of(entry);
                        if i < before.len() {
                            assert(before[i] == entry);
                        }
                    }
                    if before.contains(entry) {
                        let i = before.index_of(entry);
                        assert(now[i] == entry);
                    }
                    assert(now[before.len() as int] == more);
                } else {
                    assert(now == before);
                }
            }
        },
        _ => {},
    }
}

/// What receiving edits and undos does to a buffer.
pub proof fn lemma_took(s: State, ops: Seq<OperationModel>)
    requires
        takes(s, ops),
    ensures
        ({
            let end = took(s, ops);
            let edits = edits_in(ops);
            &&& edits_placed(s.cells, end.log, edits)
            &&& bare(end.cells) == bare(edits_done(s.cells, end.log, edits))
            &&& forall|id: Local, entry: (Local, u32)| #[trigger]
                undos_of(end.log, id).contains(entry) <==> undos_of(s.log, id).contains(entry)
                    || undid(ops, id, entry)
            &&& in_causal_order(edits)
            &&& includes(end.version, s.version)
            &&& forall|t: Local|
                observes(end.version, t) <==> observes(s.version, t) || #[trigger] named(ops, t)
            &&& forall|i: int| 0 <= i < ops.len() ==> !observes(s.version, #[trigger] name_of(ops[i]))
            &&& forall|i: int|
                0 <= i < edits.len() ==> !observes(
                    s.version,
                    local_of((#[trigger] edits[i]).timestamp),
                )
        }),
    decreases ops.len(),
{
    let end = took(s, ops);
    if ops.len() > 0 {
        let op = ops[0];
        let rest = ops.skip(1);
        let next = applied(s, op);
        lemma_applied(s, op);
        lemma_took(next, rest);
        let edits = edits_in(ops);
        let others = edits_in(rest);
        assert forall|r: ReplicaId| seen_of(end.version, r) >= #[trigger] seen_of(
            s.version,
            r,
        ) by {
            assert(seen_of(end.version, r) >= seen_of(next.version, r));
        }
        assert forall|id: Local, entry: (Local, u32)| #[trigger]
            undos_of(end.log, id).contains(entry) <==> undos_of(s.log, id).contains(entry)
                || undid(ops, id, entry) by {
            lemma_undid_rest(ops, id, entry);
            assert(undos_of(next.log, id).contains(entry) <==> undos_of(s.log, id).contains(entry)
                || undoes(op, id, entry));
        }
        assert forall|t: Local|
            observes(end.version, t) <==> observes(s.version, t) || #[trigger] named(ops, t) by {
            lemma_named_rest(ops, t);
            assert(observes(next.version, t) <==> observes(s.version, t) || (name_of(
                op,
            ).replica_id == t.replica_id && name_of(op).value >= t.value));
        }
        assert forall|i: int| 0 <= i < ops.len() implies !observes(
            s.version,
            #[trigger] name_of(ops[i]),
        ) by {
            if i > 0 {
                assert(rest[i - 1] == ops[i]);
                assert(!observes(next.version, name_of(rest[i - 1])));
            }
        }
        match op {
            OperationModel::Edit(e) => {
                // The edit sees the undos that it knows of, and no others.
                assert(logs_agree_at(s.log, end.log, e.version)) by {
                    assert forall|id: Local, entry: (Local, u32)|
                        observes(e.version, entry.0) implies (#[trigger] undos_of(
                        s.log,
                        id,
                    ).contains(entry) <==> undos_of(end.log, id).contains(entry)) by {
                        if undid(ops, id, entry) {
                            let i = choose|i: int|
                                0 <= i < ops.len() && #[trigger] undoes(ops[i], id, entry);
                            assert(name_of(ops[i]) == entry.0);
                            assert(!observes(s.version, name_of(ops[i])));
                            assert(seen_of(s.version, entry.0.replica_id) >= seen_of(
                                e.version,
                                entry.0.replica_id,
                            ));
                        }
                    }
                }
                assert(fits_in(s.cells, e));
                lemma_bare_edit(s.cells, s.cells, s.log, end.log, e);
                let d = edit_done(s.cells, end.log, e);
                assert(logs_agree(end.log, end.log));
                lemma_bare_edits(next.cells, d, end.log, end.log, others);
                assert(edits[0] == e);
                assert(edits.skip(1) =~= others);
                assert forall|i: int| 0 <= i < edits.len() implies !observes(
                    s.version,
                    local_of((#[trigger] edits[i]).timestamp),
                ) by {
                    if i > 0 {
                        assert(edits[i] == others[i - 1]);
                        assert(!observes(next.version, local_of(others[i - 1].timestamp)));
                    }
                }
                assert forall|i: int, j: int| 0 <= i < j < edits.len() implies unaware(
                    #[trigger] edits[i],
                    #[trigger] edits[j],
                ) by {
                    assert(edits[j] == others[j - 1]);
                    if i > 0 {
                        assert(edits[i] == others[i - 1]);
                    } else {
                        let t = local_of(others[j - 1].timestamp);
                        assert(!observes(next.version, t));
                        assert(seen_of(s.version, t.replica_id) >= seen_of(
                            e.version,
                            t.replica_id,
                        ));
                    }
                }
            },
            _ => {
                assert(edits == others);
                assert(logs_agree(end.log, end.log));
                lemma_bare_edits(next.cells, s.cells, end.log, end.log, others);
                assert forall|i: int| 0 <= i < edits.len() implies !observes(
                    s.version,
                    local_of((#[trigger] edits[i]).timestamp),
                ) by {
                    assert(!observes(next.version, local_of(others[i].timestamp)));
                }
            },
        }
    }
}

/// One of the operations comes from the replica of `t`, and not before it.
pub open spec fn named(ops: Seq<OperationModel>, t: Local) -> bool {
    exists|i: int|
        0 <= i < ops.len() && (#[trigger] name_of(ops[i])).replica_id == t.replica_id && name_of(
            ops[i],
        ).value >= t.value
}

proof fn lemma_named_rest(ops: Seq<OperationModel>, t: Local)
    requires
        ops.len() > 0,
    ensures
        named(ops, t) <==> (name_of(ops[0]).replica_id == t.replica_id && name_of(ops[0]).value
            >= t.value) || named(ops.skip(1), t),
{
    let rest = ops.skip(1);
    if named(ops, t) {
        let i = choose|i: int|
            0 <= i < ops.len() && (#[trigger] name_of(ops[i])).replica_id == t.replica_id
                && name_of(ops[i]).value >= t.value;
        if i > 0 {
            assert(rest[i - 1] == ops[i]);
            assert(name_of(rest[i - 1]).replica_id == t.replica_id);
        }
    }
    if named(rest, t) {
        let i = choose|i: int|
            0 <= i < rest.len() && (#[trigger] name_of(rest[i])).replica_id == t.replica_id
                && name_of(rest[i]).value >= t.value;
        assert(ops[i + 1] == rest[i]);
        assert(name_of(ops[i + 1]).replica_id == t.replica_id);
    }
}

pub proof fn lemma_same_named(a: Seq<OperationModel>, b: Seq<OperationModel>, t: Local)
    requires
        forall|op: OperationModel| #[trigger] a.contains(op) ==> b.contains(op),
    ensures
        named(a, t) ==> named(b, t),
{
    if named(a, t) {
        let i = choose|i: int|
            0 <= i < a.len() && (#[trigger] name_of(a[i])).replica_id == t.replica_id && name_of(
                a[i],
            ).value >= t.value;
        assert(a.contains(a[i]));
        let k = b.index_of(a[i]);
        assert(name_of(b[k]).replica_id == t.replica_id);
    }
}

proof fn lemma_same_undid(
    a: Seq<OperationModel>,
    b: Seq<OperationModel>,
    id: Local,
    entry: (Local, u32),
)
    requires
        forall|op: OperationModel| #[trigger] a.contains(op) ==> b.contains(op),
    ensures
        undid(a, id, entry) ==> undid(b, id, entry),
{
    if undid(a, id, entry) {
        let i = choose|i: int| 0 <= i < a.len() && #[trigger] undoes(a[i], id, entry);
        assert(a.contains(a[i]));
        let k = b.index_of(a[i]);
        assert(undoes(b[k], id, entry));
    }
}

/// Two replicas that started from the same state, and have received the same
/// edits and undos in whatever orders they could be applied in, hold the same
/// cells, with the same deletions, in the same order; they have seen the same
/// operations and have the same undos on record. Where each of them shows what
/// its record says, they show the same text.
pub proof fn law_replicas_converge_with_undos(
    s: State,
    first: Seq<OperationModel>,
    second: Seq<OperationModel>,
)
    requires
        takes(s, first),
        takes(s, second),
        at_different_times(edits_in(first)),
        at_different_times(edits_in(second)),
        forall|op: OperationModel| #[trigger] first.contains(op) <==> second.contains(op),
    ensures
        ({
            let a = took(s, first);
            let b = took(s, second);
            &&& bare(a.cells) == bare(b.cells)
            &&& logs_agree(a.log, b.log)
            &&& same_version(a.version, b.version)
            &&& shows(a.cells, a.log) && shows(b.cells, b.log) ==> a.text() == b.text()
        }),
{
    let a = took(s, first);
    let b = took(s, second);
    let x = edits_in(first);
    let y = edits_in(second);
    lemma_took(s, first);
    lemma_took(s, second);
    assert forall|id: Local, entry: (Local, u32)| #[trigger]
        undos_of(a.log, id).contains(entry) <==> undos_of(b.log, id).contains(entry) by {
        lemma_same_undid(first, second, id, entry);
        lemma_same_undid(second, first, id, entry);
        assert(undos_of(b.log, id).contains(entry) <==> undos_of(s.log, id).contains(entry)
            || undid(second, id, entry));
    }
    assert forall|e: EditModel| #[trigger] x.contains(e) <==> y.contains(e) by {
        lemma_edits_in(first, e);
        lemma_edits_in(second, e);
        assert(first.contains(OperationModel::Edit(e)) <==> second.contains(
            OperationModel::Edit(e),
        ));
    }
    law_edits_converge(s.cells, a.log, x, y);
    lemma_bare_edits(s.cells, s.cells, a.log, b.log, y);
    lemma_same_seen(s.version, a.version, b.version, first, second);
    if shows(a.cells, a.log) && shows(b.cells, b.log) {
        lemma_same_shown(a, b);
    }
}

/// Versions that have seen the same operations are the same.
pub proof fn lemma_same_seen(
    start: Version,
    a: Version,
    b: Version,
    first: Seq<OperationModel>,
    second: Seq<OperationModel>,
)
    requires
        forall|t: Local| #[trigger] named(first, t) || observes(start, t) <==> observes(a, t),
        forall|t: Local| #[trigger] named(second, t) || observes(start, t) <==> observes(b, t),
        forall|op: OperationModel| #[trigger] first.contains(op) <==> second.contains(op),
    ensures
        same_version(a, b),
{
    assert forall|op: OperationModel| #[trigger] second.contains(op) implies first.contains(
        op,
    ) by {
        assert(first.contains(op) <==> second.contains(op));
    }
    assert forall|r: ReplicaId| seen_of(a, r) >= #[trigger] seen_of(b, r) by {
        let t = Local { replica_id: r, value: seen_of(b, r) };
        lemma_seen_or_named(start, b, second, t);
        lemma_same_named(second, first, t);
        lemma_seen_or_named(start, a, first, t);
    }
    assert forall|r: ReplicaId| seen_of(b, r) >= #[trigger] seen_of(a, r) by {
        let t = Local { replica_id: r, value: seen_of(a, r) };
        lemma_seen_or_named(start, a, first, t);
        lemma_same_named(first, second, t);
        lemma_seen_or_named(start, b, second, t);
    }
}

proof fn lemma_seen_or_named(start: Version, v: Version, ops: Seq<OperationModel>, t: Local)
    requires
        forall|t: Local| #[trigger] named(ops, t) || observes(start, t) <==> observes(v, t),
    ensures
        observes(v, t) <==> observes(start, t) || named(ops, t),
{
    let _ = named(ops, t);
}

/// Buffers that hold the same cells and the same undos show the same text, where
/// each shows what its record says.
pub proof fn lemma_same_shown(a: State, b: State)
    requires
        bare(a.cells) == bare(b.cells),
        logs_agree(a.log, b.log),
        shows(a.cells, a.log),
        shows(b.cells, b.log),
    ensures
        a.text() == b.text(),
{
    lemma_bare_cells(a.cells, b.cells);
    assert forall|i: int| 0 <= i < a.cells.len() implies (#[trigger] a.cells[i]).visible
        == b.cells[i].visible && a.cells[i].byte == b.cells[i].byte by {
        let c = a.cells[i];
        let d = b.cells[i];
        lemma_undone_same(a.log, b.log, local_of(c.timestamp));
        assert forall|del: Local| c.deletions.contains(del) implies undone(a.log, del)
            == undone(b.log, del) by {
            lemma_undone_same(a.log, b.log, del);
        }
        assert(c.visible == shown(c.timestamp, c.deletions, a.log));
        assert(d.visible == shown(d.timestamp, d.deletions, b.log));
    }
    lemma_same_visible(a.cells, b.cells);
}

/// An edit that a replica makes to its own text is, to every replica in the same
/// state, the edit that it tells the others of: they accept it, and do to their
/// text what it has done to its own.
pub proof fn law_edits_travel(d: Doc, s: State, ranges: Seq<(int, int)>, text: Seq<char>)
    requires
        d.wf(),
        d.cells() == s.cells,
        settled(s.cells, s.log, s.version),
        can_edit(s, ranges, text),
        s.lamport_clock.replica_id == s.replica_id,
        s.lamport_clock.value < u32::MAX,
        forall|i: int|
            0 <= i < s.cells.len() ==> !after(
                lamport_of((#[trigger] s.cells[i]).timestamp),
                s.lamport_clock,
            ),
    ensures
        ({
            let op = OperationModel::Edit(edit_operation(s, ranges, text));
            &&& can_apply(State { deferred_replicas: Set::empty(), ..s }, op)
            &&& op_fits(s, op)
            &&& applied(s, op).cells == edited_within(s, ranges, text).cells
            &&& applied(s, op).version == edited_within(s, ranges, text).version
        }),
{
    let e = edit_operation(s, ranges, text);
    let bytes = bytes_of(e.new_text);
    lemma_shown_now(s);
    law_replay_of_local_edit(d, s.log, s.version, ranges, e.timestamp, bytes);
}

/// An edit that a replica makes to its own text names places of it, and is, to
/// itself, the edit that it tells the others of.
pub proof fn law_own_edit_lands(s: State, ranges: Seq<(int, int)>, text: Seq<char>)
    requires
        settled(s.cells, s.log, s.version),
        can_edit(s, ranges, text),
        s.lamport_clock.replica_id == s.replica_id,
        forall|i: int|
            0 <= i < s.cells.len() ==> !after(
                lamport_of((#[trigger] s.cells[i]).timestamp),
                s.lamport_clock,
            ),
    ensures
        ({
            let edit = edit_operation(s, ranges, text);
            let op = OperationModel::Edit(edit);
            &&& fits_in(s.cells, edit)
            &&& applied(s, op).cells == edited_within(s, ranges, text).cells
            &&& applied(s, op).log == edited_within(s, ranges, text).log
            &&& applied(s, op).version == edited_within(s, ranges, text).version
        }),
{
    let e = edit_operation(s, ranges, text);
    let bytes = bytes_of(e.new_text);
    lemma_shown_now(s);
    law_local_edit_lands(s.cells, s.log, s.version, ranges, e.timestamp, bytes);
    lemma_applied(s, OperationModel::Edit(e));
}

/// What is shown in a settled buffer is what is shown at its version.
proof fn lemma_shown_now(s: State)
    requires
        settled(s.cells, s.log, s.version),
    ensures
        forall|i: int|
            0 <= i < s.cells.len() ==> (#[trigger] s.cells[i]).visible == cell_shown_at(
                s.cells[i],
                s.version,
                s.log,
            ),
        forall|i: int|
            0 <= i < s.cells.len() ==> observes(
                s.version,
                local_of((#[trigger] s.cells[i]).timestamp),
            ),
{
    assert forall|i: int| 0 <= i < s.cells.len() implies (#[trigger] s.cells[i]).visible
        == cell_shown_at(s.cells[i], s.version, s.log) by {
        let c = s.cells[i];
        assert(observes(s.version, local_of(c.timestamp)));
        lemma_undone_now(s.cells, s.log, s.version, local_of(c.timestamp));
        assert forall|del: Local| #[trigger] c.deletions.contains(del) implies observes(
            s.version,
            del,
        ) && undone_at(s.log, del, s.version) == undone(s.log, del) by {
            assert(s.cells[i].deletions.contains(del));
            assert(observes(s.version, del));
            lemma_undone_now(s.cells, s.log, s.version, del);
        }
    }
}

} // verus!
