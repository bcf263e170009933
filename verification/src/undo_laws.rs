//! Documents that show what their undo log says, and how they stay that way.

use vstd::prelude::*;

use crate::buffer::new_state;
use crate::clock::{Local, ReplicaId, Version, observes, observing};
use crate::converge::{
    growing, high, lemma_edited_laid, lemma_laid_at, lemma_new_text, lemma_once, lemma_stands, low,
    rising, text_at, within,
};
use crate::document::{Cell, all_seen};
use crate::file::FileModel;
use crate::fragment::{InsertionTimestamp, lamport_of, local_of, shown};
use crate::history::HistoryModel;
use crate::local::{lemma_local_plan, lemma_local_range};
use crate::operation::{EditModel, OperationModel, bytes_of};
use crate::state::{State, applied, edit_operation, edited_within, op_fits};
use crate::syntax::Language;
use crate::undo_map::{
    UndoLog, largest_count, largest_count_at, log_with, undone, undone_at, undos_of,
};
use crate::weave::{
    Plan, edited, inserted_cells, lemma_remote_plan, local_at, local_end, local_ok, local_plan,
    remote_plan, touched,
};

verus! {

/// A fragment starts at `p`, or the text ends there.
pub open spec fn boundary(cells: Seq<Cell>, p: int) -> bool {
    p == 0 || p == cells.len() || (0 < p < cells.len() && cells[p].head)
}

/// Where the cells before `i` end, if `k` texts come before them.
pub proof fn lemma_low_count(cells: Seq<Cell>, at: Seq<int>, t: Seq<Cell>, k: int, i: int)
    requires
        growing(at),
        0 <= i,
        0 <= k <= at.len(),
        k > 0 ==> at[k - 1] < i,
        k < at.len() ==> i <= at[k],
        within(at, cells.len() as int),
    ensures
        low(cells, text_at(at, t), i) == i + k * t.len(),
    decreases i,
{
    if i > 0 {
        lemma_once(at, t, i - 1);
        if at.contains(i - 1) {
            let j = at.index_of(i - 1);
            assert(at[j] == i - 1);
            if j < k - 1 {
                assert(at[j] < at[k - 1]);
            } else if j > k {
                assert(at[k] < at[j]);
            }
            assert(j == k - 1);
            if k > 1 {
                assert(at[k - 2] < at[k - 1]);
            }
            lemma_low_count(cells, at, t, k - 1, i - 1);
            assert(k * t.len() == (k - 1) * t.len() + t.len()) by (nonlinear_arith);
        } else {
            if k > 0 && at[k - 1] == i - 1 {
                assert(at.contains(i - 1));
            }
            lemma_low_count(cells, at, t, k, i - 1);
        }
    } else {
        if k > 0 {
            assert(0 <= at[k - 1]);
        }
        assert(0 * t.len() == 0) by (nonlinear_arith);
    }
}

/// What a document shows is what its log says, and everything in both has been
/// seen by the version.
pub open spec fn settled(cells: Seq<Cell>, log: UndoLog, v: Version) -> bool {
    &&& all_seen(cells, v)
    &&& forall|i: int|
        0 <= i < cells.len() ==> (#[trigger] cells[i]).visible == shown(
            cells[i].timestamp,
            cells[i].deletions,
            log,
        )
    &&& forall|i: int, d: Local|
        0 <= i < cells.len() && (#[trigger] cells[i]).deletions.contains(d) ==> #[trigger] observes(
            v,
            d,
        )
    &&& forall|id: Local| #[trigger] log.contains_key(id) ==> observes(v, id)
    &&& forall|id: Local, k: int|
        log.contains_key(id) && 0 <= k < log[id].len() ==> observes(v, (#[trigger] log[id][k]).0)
}

proof fn lemma_count_at(s: Seq<(Local, u32)>, v: Version)
    requires
        forall|k: int| 0 <= k < s.len() ==> observes(v, (#[trigger] s[k]).0),
    ensures
        largest_count_at(s, v) == largest_count(s),
    decreases s.len(),
{
    if s.len() > 0 {
        assert(observes(v, s[s.len() - 1].0));
        lemma_count_at(s.drop_last(), v);
    }
}

/// What is undone is what was undone as far as the version had seen.
pub proof fn lemma_undone_now(cells: Seq<Cell>, log: UndoLog, v: Version, id: Local)
    requires
        settled(cells, log, v),
    ensures
        undone_at(log, id, v) == undone(log, id),
{
    lemma_count_at(undos_of(log, id), v);
}

/// Two documents that differ in nothing but what they show.
pub open spec fn alike(a: Seq<Cell>, b: Seq<Cell>) -> bool {
    &&& a.len() == b.len()
    &&& forall|i: int|
        0 <= i < a.len() ==> {
            &&& (#[trigger] a[i]).byte == b[i].byte
            &&& a[i].head == b[i].head
            &&& a[i].timestamp == b[i].timestamp
            &&& a[i].deletions == b[i].deletions
        }
}

/// What a document shows is what its log says.
pub open spec fn shows(cells: Seq<Cell>, log: UndoLog) -> bool {
    forall|i: int|
        0 <= i < cells.len() ==> (#[trigger] cells[i]).visible == shown(
            cells[i].timestamp,
            cells[i].deletions,
            log,
        )
}

/// An edit of the visible text can be made: its ranges are in order and lie
/// between characters, and each of them does something.
pub open spec fn can_edit(s: State, ranges: Seq<(int, int)>, text: Seq<char>) -> bool {
    &&& local_ok(s.cells, ranges, bytes_of(edit_operation(s, ranges, text).new_text))
    &&& ranges.len() > 0
    &&& forall|k: int|
        0 <= k < ranges.len() ==> (#[trigger] ranges[k]).0 < ranges[k].1 || bytes_of(
            edit_operation(s, ranges, text).new_text,
        ).len() > 0
    &&& s.local_clock.replica_id == s.replica_id
    &&& s.local_clock.value < u32::MAX - 1
    &&& !observes(s.version, s.local_clock)
}

/// A document is settled after an undo if what it shows is what the log says.
pub proof fn lemma_undo_settles(
    before: Seq<Cell>,
    log: UndoLog,
    v: Version,
    now: Seq<Cell>,
    undo_id: Local,
    counts: Map<Local, u32>,
)
    requires
        settled(before, log, v),
        alike(now, before),
        shows(now, log_with(log, undo_id, counts)),
        forall|id: Local| #[trigger] counts.contains_key(id) ==> observes(v, id),
    ensures
        settled(now, log_with(log, undo_id, counts), observing(v, undo_id)),
{
    let w = observing(v, undo_id);
    let after = log_with(log, undo_id, counts);
    assert forall|i: int| 0 <= i < now.len() implies observes(
        w,
        local_of((#[trigger] now[i]).timestamp),
    ) by {
        assert(now[i].timestamp == before[i].timestamp);
        assert(observes(v, local_of(before[i].timestamp)));
    }
    assert forall|i: int, d: Local|
        0 <= i < now.len() && (#[trigger] now[i]).deletions.contains(d) implies #[trigger] observes(
        w,
        d,
    ) by {
        assert(before[i].deletions.contains(d));
        assert(observes(v, d));
    }
    assert forall|id: Local| #[trigger] after.contains_key(id) implies observes(w, id) by {
        assert(log.contains_key(id) || counts.contains_key(id));
        assert(observes(v, id));
    }
    assert forall|id: Local, k: int|
        after.contains_key(id) && 0 <= k < after[id].len() implies observes(
        w,
        (#[trigger] after[id][k]).0,
    ) by {
        if log.contains_key(id) && k < log[id].len() {
            assert(after[id][k] == log[id][k]);
            assert(observes(v, log[id][k].0));
        }
    }
}

/// A version that has seen an edit has seen all of the text after it, if it had
/// seen all of the text before.
pub proof fn lemma_edit_seen(
    cells: Seq<Cell>,
    v: Version,
    plan: Plan,
    timestamp: InsertionTimestamp,
    text: Seq<u8>,
)
    requires
        all_seen(cells, v),
        rising(plan.at),
        within(plan.at, cells.len() as int),
    ensures
        all_seen(edited(cells, plan, timestamp, text), observing(v, local_of(timestamp))),
{
    let m = touched(cells, plan, local_of(timestamp));
    let g = text_at(plan.at, inserted_cells(timestamp, text));
    let d = edited(cells, plan, timestamp, text);
    lemma_edited_laid(cells, plan, timestamp, text);
    lemma_new_text(plan.at, timestamp, text);
    lemma_laid_at(m, g, m.len() as int);
    assert forall|x: int| 0 <= x < d.len() implies observes(
        observing(v, local_of(timestamp)),
        local_of((#[trigger] d[x]).timestamp),
    ) by {
        let i = lemma_stands(m, g, x, m.len() as int);
        lemma_laid_at(m, g, i);
        let y = low(m, g, i);
        if x < high(m, g, i) {
            assert(d.subrange(y, high(m, g, i))[x - y] == g(i)[x - y]);
        } else {
            assert(d[x] == m[i]);
            assert(observes(v, local_of(cells[i].timestamp)));
        }
    }
}

/// The places of a plan that is in order.
pub proof fn lemma_in_sequence(plan: Plan, len: int)
    requires
        plan.ok(len),
    ensures
        rising(plan.at),
        within(plan.at, len),
{
    assert forall|j: int, k: int| 0 <= j < k < plan.at.len() implies #[trigger] plan.at[j]
        <= #[trigger] plan.at[k] by {
        assert(plan.at[j] <= plan.ends[j]);
        assert(plan.ends[j] <= plan.at[k]);
    }
}

/// The places of an edit of the visible text.
pub proof fn lemma_local_places(cells: Seq<Cell>, ranges: Seq<(int, int)>, text: Seq<u8>)
    requires
        local_ok(cells, ranges, text),
    ensures
        growing(local_plan(cells, ranges).at),
        within(local_plan(cells, ranges).at, cells.len() as int),
{
    let plan = local_plan(cells, ranges);
    lemma_local_plan(cells, ranges, text);
    assert forall|j: int, k: int| 0 <= j < k < plan.at.len() implies #[trigger] plan.at[j]
        < #[trigger] plan.at[k] by {
        lemma_local_range(cells, ranges, text, j);
        assert(local_end(cells, ranges, j) < local_at(cells, ranges, k));
    }
    assert forall|k: int| 0 <= k < plan.at.len() implies 0 <= #[trigger] plan.at[k]
        <= cells.len() by {
        lemma_local_range(cells, ranges, text, k);
    }
}

/// An edit leaves a settled document settled.
proof fn lemma_edit_settles(
    cells: Seq<Cell>,
    log: UndoLog,
    v: Version,
    plan: Plan,
    timestamp: InsertionTimestamp,
    text: Seq<u8>,
)
    requires
        settled(cells, log, v),
        rising(plan.at),
        within(plan.at, cells.len() as int),
        !observes(v, local_of(timestamp)),
    ensures
        settled(edited(cells, plan, timestamp, text), log, observing(v, local_of(timestamp))),
{
    let id = local_of(timestamp);
    let w = observing(v, id);
    let m = touched(cells, plan, id);
    let g = text_at(plan.at, inserted_cells(timestamp, text));
    let d = edited(cells, plan, timestamp, text);
    lemma_edited_laid(cells, plan, timestamp, text);
    lemma_new_text(plan.at, timestamp, text);
    lemma_laid_at(m, g, m.len() as int);
    assert(!log.contains_key(id));
    assert(!undone(log, id));
    assert forall|x: int| 0 <= x < d.len() implies {
        &&& observes(w, local_of((#[trigger] d[x]).timestamp))
        &&& d[x].visible == shown(d[x].timestamp, d[x].deletions, log)
        &&& forall|del: Local| d[x].deletions.contains(del) ==> #[trigger] observes(w, del)
    } by {
        let i = lemma_stands(m, g, x, m.len() as int);
        lemma_laid_at(m, g, i);
        let y = low(m, g, i);
        let h = high(m, g, i);
        if x < h {
            assert(d.subrange(y, h)[x - y] == g(i)[x - y]);
        } else {
            assert(d[x] == m[i]);
            let c = cells[i];
            assert(observes(v, local_of(c.timestamp)));
            assert(c.visible == shown(c.timestamp, c.deletions, log));
            assert forall|del: Local| d[x].deletions.contains(del) implies #[trigger] observes(
                w,
                del,
            ) by {
                if del != id {
                    assert(c.deletions.contains(del));
                    assert(observes(v, del));
                }
            }
            if plan.hits.contains(i) {
                assert(d[x].deletions.contains(id));
            }
        }
    }
    assert forall|key: Local| #[trigger] log.contains_key(key) implies observes(w, key) by {
        assert(observes(v, key));
    }
    assert forall|key: Local, k: int|
        log.contains_key(key) && 0 <= k < log[key].len() implies observes(
        w,
        (#[trigger] log[key][k]).0,
    ) by {
        assert(observes(v, log[key][k].0));
    }
}

/// A new buffer is settled.
pub proof fn law_new_buffer_is_settled(
    replica_id: ReplicaId,
    history: HistoryModel,
    file: Option<FileModel>,
    remote_id: u64,
    language: Option<Language>,
)
    ensures
        ({
            let s = new_state(replica_id, history, file, remote_id, language);
            settled(s.cells, s.log, s.version)
        }),
{
}

/// An edit of the visible text leaves a settled buffer settled.
pub proof fn law_edit_keeps_settled(s: State, ranges: Seq<(int, int)>, text: Seq<char>)
    requires
        settled(s.cells, s.log, s.version),
        can_edit(s, ranges, text),
    ensures
        ({
            let done = edited_within(s, ranges, text);
            settled(done.cells, done.log, done.version)
        }),
{
    let edit = edit_operation(s, ranges, text);
    let bytes = bytes_of(edit.new_text);
    let plan = local_plan(s.cells, ranges);
    lemma_local_places(s.cells, ranges, bytes);
    lemma_edit_settles(s.cells, s.log, s.version, plan, edit.timestamp, bytes);
}

/// An edit of another replica leaves a settled buffer settled.
pub proof fn law_remote_edit_keeps_settled(s: State, edit: EditModel)
    requires
        settled(s.cells, s.log, s.version),
        op_fits(s, OperationModel::Edit(edit)),
    ensures
        ({
            let done = applied(s, OperationModel::Edit(edit));
            settled(done.cells, done.log, done.version)
        }),
{
    if !observes(s.version, local_of(edit.timestamp)) {
        if edit.ranges.len() > 0 {
            let lamport = lamport_of(edit.timestamp);
            let bytes = bytes_of(edit.new_text);
            let plan = remote_plan(s.cells, s.log, edit.version, lamport, edit.ranges);
            lemma_remote_plan(s.cells, s.log, edit.version, lamport, edit.ranges, bytes);
            lemma_in_sequence(plan, s.cells.len() as int);
            lemma_edit_settles(s.cells, s.log, s.version, plan, edit.timestamp, bytes);
        } else {
            lemma_edit_settles(
                s.cells,
                s.log,
                s.version,
                Plan { at: Seq::empty(), ends: Seq::empty(), hits: Set::empty() },
                edit.timestamp,
                Seq::empty(),
            );
            let none = Plan { at: Seq::empty(), ends: Seq::empty(), hits: Set::empty() };
            let m = touched(s.cells, none, local_of(edit.timestamp));
            assert forall|i: int| 0 <= i < s.cells.len() implies m[i] == s.cells[i] by {
                assert(!none.cut(i));
            }
            assert(m =~= s.cells);
            assert(s.cells.subrange(0, s.cells.len() as int) =~= s.cells);
        }
    }
}

} // verus!
