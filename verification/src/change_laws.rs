//! Laws of what has changed since an earlier version.

use vstd::prelude::*;

use crate::buffer::new_state;
use crate::clock::{Local, ReplicaId, Version, includes, observes, seen_of};
use crate::converge::{
    edit_done, gaps_of, high, lemma_laid_at, lemma_places, lemma_stands, low, marked, placed_in,
};
use crate::document::{Cell, visible_rank, visible_text};
use crate::edit_laws::lemma_visible_part;
use crate::edits::{Comparison, Span, cell_version, growth, lemma_span_total, lemma_spans};
use crate::file::FileModel;
use crate::fragment::{having_seen, insertion_version, lemma_having_seen, local_of, shown};
use crate::history::HistoryModel;
use crate::operation::{EditModel, OperationModel};
use crate::reach_laws::{
    affected, law_undo_keeps_settled, lemma_log_at, lemma_reviewed, reaches, undos_reach,
};
use crate::replica_laws::{lemma_applied, name_of, takes, took};
use crate::replicas::{fits_in, lemma_no_ranges};
use crate::state::{State, applied, current_tree, interpolated, snapshot_of};
use crate::syntax::Language;
use crate::undo::{Undo, undo_applied};
use crate::undo_laws::{alike, law_remote_edit_keeps_settled, lemma_undone_now, settled};
use crate::undo_map::{
    UndoLog, largest_count, largest_count_at, log_with, undone, undone_at, undos_of,
};
use crate::weave::cell_shown_at;

verus! {

/// An old text with the first `k` changes made to it, up to the end of the last
/// of them: between the changes the old text, and in their places the new one.
pub open spec fn patched_upto(
    old_text: Seq<u8>,
    new_text: Seq<u8>,
    spans: Seq<Span>,
    k: int,
) -> Seq<u8>
    decreases k,
{
    if k <= 0 {
        Seq::empty()
    } else {
        let from = if k > 1 {
            spans[k - 2].old.1
        } else {
            0
        };
        let span = spans[k - 1];
        patched_upto(old_text, new_text, spans, k - 1) + old_text.subrange(from, span.old.0)
            + new_text.subrange(span.new.0, span.new.1)
    }
}

/// Where the old text goes on after the last change.
pub open spec fn unchanged_from(spans: Seq<Span>) -> int {
    if spans.len() > 0 {
        spans.last().old.1
    } else {
        0
    }
}

/// An old text with all the changes made to it.
pub open spec fn patched(old_text: Seq<u8>, new_text: Seq<u8>, spans: Seq<Span>) -> Seq<u8> {
    patched_upto(old_text, new_text, spans, spans.len() as int) + old_text.subrange(
        unchanged_from(spans),
        old_text.len() as int,
    )
}

/// What comes after the changes does not matter to them.
proof fn lemma_patched_same(
    a: Seq<u8>,
    b: Seq<u8>,
    x: Seq<u8>,
    y: Seq<u8>,
    spans: Seq<Span>,
    others: Seq<Span>,
    k: int,
)
    requires
        0 <= k <= spans.len(),
        k <= others.len(),
        forall|j: int| 0 <= j < k ==> spans[j] == others[j],
        forall|j: int|
            0 <= j < k ==> 0 <= (#[trigger] spans[j]).old.0 <= spans[j].old.1 <= a.len() && 0
                <= spans[j].new.0 <= spans[j].new.1 <= x.len(),
        a.len() <= b.len(),
        x.len() <= y.len(),
        b.take(a.len() as int) == a,
        y.take(x.len() as int) == x,
        forall|j: int| 0 < j < k ==> spans[j - 1].old.1 <= (#[trigger] spans[j]).old.0,
    ensures
        patched_upto(a, x, spans, k) == patched_upto(b, y, others, k),
    decreases k,
{
    if k > 0 {
        lemma_patched_same(a, b, x, y, spans, others, k - 1);
        let from = if k > 1 {
            spans[k - 2].old.1
        } else {
            0
        };
        let span = spans[k - 1];
        if k > 1 {
            assert(spans[k - 1 - 1].old.1 <= spans[k - 1].old.0);
            assert(others[k - 2] == spans[k - 2]);
        }
        assert(others[k - 1] == span);
        assert(a.subrange(from, span.old.0) =~= b.subrange(from, span.old.0)) by {
            assert forall|i: int| from <= i < span.old.0 implies a[i] == b[i] by {
                assert(b.take(a.len() as int)[i] == b[i]);
            }
        }
        assert(x.subrange(span.new.0, span.new.1) =~= y.subrange(span.new.0, span.new.1)) by {
            assert forall|i: int| span.new.0 <= i < span.new.1 implies x[i] == y[i] by {
                assert(y.take(x.len() as int)[i] == y[i]);
            }
        }
    }
}

/// The changes come one after the other.
proof fn lemma_spans_follow(w: Comparison, i: int)
    requires
        0 <= i <= w.len(),
    ensures
        forall|k: int|
            0 < k < w.spans(i).len() ==> w.spans(i)[k - 1].old.1 <= (#[trigger] w.spans(i)[k]).old.0,
    decreases i,
{
    if i > 0 {
        lemma_spans_follow(w, i - 1);
        lemma_spans(w, i - 1);
        let before = w.spans(i - 1);
        let now = w.spans(i);
        assert forall|k: int| 0 < k < now.len() implies now[k - 1].old.1 <= (
        #[trigger] now[k]).old.0 by {
            if k < before.len() {
                assert(before[k - 1].old.1 <= before[k].old.0);
            } else {
                assert(before[k - 1].old.1 <= w.old_text(i - 1).len());
            }
        }
    }
}

/// The visible text of the first cells.
proof fn lemma_visible_prefix(cells: Seq<Cell>, i: int)
    requires
        0 < i <= cells.len(),
    ensures
        visible_text(cells.take(i)) == if cells[i - 1].visible {
            visible_text(cells.take(i - 1)).push(cells[i - 1].byte)
        } else {
            visible_text(cells.take(i - 1))
        },
        visible_text(cells.take(i)).len() == visible_rank(cells, i),
        visible_text(cells.take(i - 1)).len() == visible_rank(cells, i - 1),
{
    assert(cells.take(i).drop_last() =~= cells.take(i - 1));
    lemma_visible_part(cells, 0, i);
    lemma_visible_part(cells, 0, i - 1);
    assert(cells.subrange(0, i) =~= cells.take(i));
    assert(cells.subrange(0, i - 1) =~= cells.take(i - 1));
}

/// The changes lie in the two texts, one after the other.
pub open spec fn spans_fit(spans: Seq<Span>, old_len: int, new_len: int) -> bool {
    &&& forall|k: int|
        0 <= k < spans.len() ==> 0 <= (#[trigger] spans[k]).old.0 <= spans[k].old.1 <= old_len && 0
            <= spans[k].new.0 <= spans[k].new.1 <= new_len
    &&& forall|k: int| 0 < k < spans.len() ==> spans[k - 1].old.1 <= (#[trigger] spans[k]).old.0
}

/// Both texts go on in the same way, and there is no new change.
proof fn lemma_patched_on(a: Seq<u8>, x: Seq<u8>, spans: Seq<Span>, more: Seq<u8>)
    requires
        spans_fit(spans, a.len() as int, x.len() as int),
        patched(a, x, spans) == x,
    ensures
        patched(a + more, x + more, spans) == x + more,
{
    let b = a + more;
    let y = x + more;
    let n = spans.len() as int;
    assert(b.take(a.len() as int) =~= a);
    assert(y.take(x.len() as int) =~= x);
    lemma_patched_same(a, b, x, y, spans, spans, n);
    let from = unchanged_from(spans);
    if n > 0 {
        assert(spans[n - 1].old.1 <= a.len());
    }
    assert(b.subrange(from, b.len() as int) =~= a.subrange(from, a.len() as int) + more);
    let head = patched_upto(a, x, spans, n);
    assert(head + (a.subrange(from, a.len() as int) + more) =~= head + a.subrange(
        from,
        a.len() as int,
    ) + more);
}

/// The last change, which reaches to the ends of both texts, grows.
proof fn lemma_patched_grown(
    a: Seq<u8>,
    x: Seq<u8>,
    spans: Seq<Span>,
    gone: Seq<u8>,
    come: Seq<u8>,
)
    requires
        spans_fit(spans, a.len() as int, x.len() as int),
        patched(a, x, spans) == x,
        spans.len() > 0,
        spans.last().old.1 == a.len(),
        spans.last().new.1 == x.len(),
    ensures
        ({
            let last = spans.last();
            let now = spans.update(
                spans.len() - 1,
                Span {
                    old: (last.old.0, last.old.1 + gone.len()),
                    new: (last.new.0, last.new.1 + come.len()),
                },
            );
            patched(a + gone, x + come, now) == x + come
        }),
{
    let n = spans.len() as int;
    let last = spans.last();
    let end = Span {
        old: (last.old.0, last.old.1 + gone.len()),
        new: (last.new.0, last.new.1 + come.len()),
    };
    let now = spans.update(n - 1, end);
    let b = a + gone;
    let y = x + come;
    assert(b.take(a.len() as int) =~= a);
    assert(y.take(x.len() as int) =~= x);
    assert(spans[n - 1] == last);
    lemma_patched_same(a, b, x, y, spans, now, n - 1);
    let from = if n > 1 {
        spans[n - 2].old.1
    } else {
        0
    };
    if n > 1 {
        assert(spans[n - 1 - 1].old.1 <= spans[n - 1].old.0);
        assert(spans[n - 2].old.0 >= 0);
    }
    let head = patched_upto(a, x, spans, n - 1);
    assert(a.subrange(a.len() as int, a.len() as int) =~= Seq::<u8>::empty());
    assert(b.subrange(b.len() as int, b.len() as int) =~= Seq::<u8>::empty());
    assert(b.subrange(from, last.old.0) =~= a.subrange(from, last.old.0));
    assert(y.subrange(last.new.0, y.len() as int) =~= x.subrange(last.new.0, x.len() as int)
        + come);
    let same = head + a.subrange(from, last.old.0);
    assert(patched(a, x, spans) =~= same + x.subrange(last.new.0, x.len() as int));
    assert(patched(b, y, now) =~= same + (x.subrange(last.new.0, x.len() as int) + come));
    assert(patched(b, y, now) =~= x + come);
}

/// A change begins where both texts end.
proof fn lemma_patched_more(
    a: Seq<u8>,
    x: Seq<u8>,
    spans: Seq<Span>,
    gone: Seq<u8>,
    come: Seq<u8>,
)
    requires
        spans_fit(spans, a.len() as int, x.len() as int),
        patched(a, x, spans) == x,
    ensures
        patched(
            a + gone,
            x + come,
            spans.push(
                Span {
                    old: (a.len() as int, (a.len() + gone.len()) as int),
                    new: (x.len() as int, (x.len() + come.len()) as int),
                },
            ),
        ) == x + come,
{
    let n = spans.len() as int;
    let end = Span {
        old: (a.len() as int, (a.len() + gone.len()) as int),
        new: (x.len() as int, (x.len() + come.len()) as int),
    };
    let now = spans.push(end);
    let b = a + gone;
    let y = x + come;
    assert(b.take(a.len() as int) =~= a);
    assert(y.take(x.len() as int) =~= x);
    lemma_patched_same(a, b, x, y, spans, now, n);
    let from = unchanged_from(spans);
    if n > 0 {
        assert(spans[n - 1].old.1 <= a.len());
        assert(now[n - 1] == spans[n - 1]);
    }
    assert(b.subrange(from, a.len() as int) =~= a.subrange(from, a.len() as int));
    assert(y.subrange(x.len() as int, y.len() as int) =~= come);
    assert(b.subrange(b.len() as int, b.len() as int) =~= Seq::<u8>::empty());
    assert(patched(b, y, now) =~= patched(a, x, spans) + come);
}

proof fn lemma_patched(w: Comparison, i: int)
    requires
        0 <= i <= w.len(),
    ensures
        patched(w.old_text(i), visible_text(w.cells.take(i)), w.spans(i)) == visible_text(
            w.cells.take(i),
        ),
    decreases i,
{
    if i == 0 {
        assert(w.cells.take(0) =~= Seq::<Cell>::empty());
        let none = Seq::<u8>::empty();
        assert(patched(none, none, Seq::<Span>::empty()) =~= none);
    } else {
        lemma_patched(w, i - 1);
        lemma_visible_prefix(w.cells, i);
        lemma_spans(w, i - 1);
        lemma_spans_follow(w, i - 1);
        let x = visible_text(w.cells.take(i - 1));
        let a = w.old_text(i - 1);
        let spans = w.spans(i - 1);
        let byte = seq![w.cells[i - 1].byte];
        let none = Seq::<u8>::empty();
        assert(x + byte =~= x.push(w.cells[i - 1].byte));
        assert(a + byte =~= a.push(w.cells[i - 1].byte));
        assert(x + none =~= x);
        assert(a + none =~= a);
        let (gone, come) = if w.appeared(i - 1) {
            (none, byte)
        } else {
            (byte, none)
        };
        if w.appeared(i - 1) || w.vanished(i - 1) {
            if spans.len() > 0 && spans.last().new.1 == x.len() {
                lemma_patched_grown(a, x, spans, gone, come);
            } else {
                lemma_patched_more(a, x, spans, gone, come);
            }
        } else if w.cells[i - 1].visible {
            lemma_patched_on(a, x, spans, byte);
        }
    }
}

/// The changes since an earlier version, made to the text of that version, give
/// the text of today; together they account for the difference in length.
pub proof fn law_changes_rebuild_text(w: Comparison)
    ensures
        patched(w.old_text(w.len()), visible_text(w.cells), w.spans(w.len())) == visible_text(
            w.cells,
        ),
        visible_text(w.cells).len() == w.old_text(w.len()).len() + growth(
            w.spans(w.len()),
            w.spans(w.len()).len() as int,
        ),
{
    lemma_patched(w, w.len());
    assert(w.cells.take(w.len()) =~= w.cells);
    lemma_span_total(w, w.len());
    lemma_visible_part(w.cells, 0, w.len());
}

/// The text that was shown at a version.
pub open spec fn shown_text(cells: Seq<Cell>, v: Version, log: UndoLog) -> Seq<u8>
    decreases cells.len(),
{
    if cells.len() == 0 {
        Seq::empty()
    } else if cell_shown_at(cells.last(), v, log) {
        shown_text(cells.drop_last(), v, log).push(cells.last().byte)
    } else {
        shown_text(cells.drop_last(), v, log)
    }
}

/// Every cell knows of the undos of what has inserted or deleted it.
pub open spec fn undos_marked(cells: Seq<Cell>, log: UndoLog) -> bool {
    forall|i: int, id: Local, k: int|
        0 <= i < cells.len() && concerns(#[trigger] cells[i], id) && log.contains_key(id) && 0 <= k
            < log[id].len() ==> observes(cells[i].max_undos, (#[trigger] log[id][k]).0)
}

/// The operation has inserted the cell or deleted it.
pub open spec fn concerns(c: Cell, id: Local) -> bool {
    id == local_of(c.timestamp) || c.deletions.contains(id)
}

proof fn lemma_all_counted(log: UndoLog, v: Version, s: Seq<(Local, u32)>)
    requires
        forall|k: int| 0 <= k < s.len() ==> observes(v, (#[trigger] s[k]).0),
    ensures
        largest_count_at(s, v) == largest_count(s),
    decreases s.len(),
{
    if s.len() > 0 {
        assert(observes(v, s[s.len() - 1].0));
        lemma_all_counted(log, v, s.drop_last());
    }
}

/// What is undone of a cell was undone at a version that had seen its undos.
proof fn lemma_counted_then(cells: Seq<Cell>, log: UndoLog, since: Version, i: int, id: Local)
    requires
        undos_marked(cells, log),
        0 <= i < cells.len(),
        concerns(cells[i], id),
        includes(since, cells[i].max_undos),
    ensures
        undone_at(log, id, since) == undone(log, id),
{
    let undos = undos_of(log, id);
    assert forall|k: int| 0 <= k < undos.len() implies observes(since, (#[trigger] undos[k]).0) by {
        let t = log[id][k].0;
        assert(observes(cells[i].max_undos, log[id][k].0));
        assert(seen_of(since, t.replica_id) >= seen_of(cells[i].max_undos, t.replica_id));
    }
    lemma_all_counted(log, since, undos);
}

/// A cell that nothing has touched since a version is shown now if it was then.
proof fn lemma_untouched(cells: Seq<Cell>, log: UndoLog, v: Version, since: Version, i: int)
    requires
        settled(cells, log, v),
        undos_marked(cells, log),
        0 <= i < cells.len(),
        !(Comparison { cells, since, log }).touched(i),
    ensures
        cell_shown_at(cells[i], since, log) == cells[i].visible,
{
    let c = cells[i];
    let w = cell_version(c);
    let inserted = insertion_version(c.timestamp);
    let ts = local_of(c.timestamp);
    let seen = having_seen(inserted, c.deletions);
    assert(includes(since, w));
    lemma_having_seen(inserted, c.deletions, ts);
    assert(observes(since, ts)) by {
        assert(seen_of(since, ts.replica_id) >= seen_of(w, ts.replica_id));
        assert(seen_of(w, ts.replica_id) >= seen_of(seen, ts.replica_id));
    }
    assert forall|r: ReplicaId| seen_of(since, r) >= #[trigger] seen_of(c.max_undos, r) by {
        assert(seen_of(since, r) >= seen_of(w, r));
        assert(seen_of(w, r) >= seen_of(c.max_undos, r));
    }
    lemma_counted_then(cells, log, since, i, ts);
    assert forall|d: Local| #[trigger] c.deletions.contains(d) implies observes(since, d)
        && undone_at(log, d, since) == undone(log, d) by {
        lemma_counted_then(cells, log, since, i, d);
        lemma_having_seen(inserted, c.deletions, d);
        assert(seen_of(since, d.replica_id) >= seen_of(w, d.replica_id));
        assert(seen_of(w, d.replica_id) >= seen_of(seen, d.replica_id));
    }
    assert(c.visible == shown(c.timestamp, c.deletions, log));
}

/// The old text is what was shown at the version.
proof fn lemma_old_text_shown(
    cells: Seq<Cell>,
    log: UndoLog,
    v: Version,
    since: Version,
    i: int,
)
    requires
        settled(cells, log, v),
        undos_marked(cells, log),
        0 <= i <= cells.len(),
    ensures
        (Comparison { cells, since, log }).old_text(i) == shown_text(cells.take(i), since, log),
    decreases i,
{
    if i > 0 {
        let w = Comparison { cells, since, log };
        lemma_old_text_shown(cells, log, v, since, i - 1);
        assert(cells.take(i).drop_last() =~= cells.take(i - 1));
        if !w.touched(i - 1) {
            lemma_untouched(cells, log, v, since, i - 1);
        }
    } else {
        assert(cells.take(0) =~= Seq::<Cell>::empty());
    }
}

/// What a settled document shows is what is shown at its version.
proof fn lemma_shown_now(cells: Seq<Cell>, log: UndoLog, v: Version, i: int)
    requires
        settled(cells, log, v),
        0 <= i <= cells.len(),
    ensures
        shown_text(cells.take(i), v, log) == visible_text(cells.take(i)),
    decreases i,
{
    if i > 0 {
        lemma_shown_now(cells, log, v, i - 1);
        assert(cells.take(i).drop_last() =~= cells.take(i - 1));
        let c = cells[i - 1];
        assert(observes(v, local_of(c.timestamp)));
        lemma_undone_now(cells, log, v, local_of(c.timestamp));
        assert forall|d: Local| #[trigger] c.deletions.contains(d) implies observes(v, d)
            && undone_at(log, d, v) == undone(log, d) by {
            assert(cells[i - 1].deletions.contains(d));
            assert(observes(v, d));
            lemma_undone_now(cells, log, v, d);
        }
        assert(c.visible == shown(c.timestamp, c.deletions, log));
    } else {
        assert(cells.take(0) =~= Seq::<Cell>::empty());
    }
}

/// A run that was not shown adds nothing to the text that was.
proof fn lemma_unshown_run(d: Seq<Cell>, v: Version, log: UndoLog, a: int, b: int)
    requires
        0 <= a <= b <= d.len(),
        forall|j: int| a <= j < b ==> !cell_shown_at(#[trigger] d[j], v, log),
    ensures
        shown_text(d.take(b), v, log) == shown_text(d.take(a), v, log),
    decreases b - a,
{
    if a < b {
        lemma_unshown_run(d, v, log, a, b - 1);
        assert(d.take(b).drop_last() =~= d.take(b - 1));
        assert(!cell_shown_at(d[b - 1], v, log));
    }
}

/// An edit does not change what was shown at a version that had not seen it.
proof fn lemma_edit_keeps_shown(
    cells: Seq<Cell>,
    log: UndoLog,
    e: EditModel,
    since: Version,
    i: int,
)
    requires
        placed_in(cells, e),
        !observes(since, local_of(e.timestamp)),
        0 <= i <= cells.len(),
    ensures
        ({
            let d = edit_done(cells, log, e);
            let h = high(marked(cells, log, e), gaps_of(cells, log, e), i);
            &&& 0 <= h <= d.len()
            &&& shown_text(d.take(h), since, log) == shown_text(cells.take(i), since, log)
        }),
    decreases i,
{
    let m = marked(cells, log, e);
    let g = gaps_of(cells, log, e);
    let d = edit_done(cells, log, e);
    let id = local_of(e.timestamp);
    lemma_places(cells, log, e);
    lemma_laid_at(m, g, i);
    let x = low(m, g, i);
    let h = high(m, g, i);
    assert forall|j: int| x <= j < h implies !cell_shown_at(#[trigger] d[j], since, log) by {
        assert(d.subrange(x, h)[j - x] == g(i)[j - x]);
    }
    lemma_unshown_run(d, since, log, x, h);
    if i > 0 {
        lemma_edit_keeps_shown(cells, log, e, since, i - 1);
        lemma_laid_at(m, g, i - 1);
        assert(d.take(x).drop_last() =~= d.take(x - 1));
        assert(cells.take(i).drop_last() =~= cells.take(i - 1));
        let c = cells[i - 1];
        let now = m[i - 1];
        assert(d[x - 1] == now);
        assert(cell_shown_at(now, since, log) == cell_shown_at(c, since, log)) by {
            if cell_shown_at(c, since, log) {
                assert forall|del: Local| #[trigger] now.deletions.contains(del) implies !observes(
                    since,
                    del,
                ) || undone_at(log, del, since) by {
                    if del != id {
                        assert(c.deletions.contains(del));
                    }
                }
            }
            if cell_shown_at(now, since, log) {
                assert forall|del: Local| #[trigger] c.deletions.contains(del) implies !observes(
                    since,
                    del,
                ) || undone_at(log, del, since) by {
                    assert(now.deletions.contains(del));
                }
            }
        }
    } else {
        assert(d.take(0) =~= Seq::<Cell>::empty());
        assert(cells.take(0) =~= Seq::<Cell>::empty());
    }
}

/// An edit leaves the cells knowing of the undos.
proof fn lemma_edit_keeps_marks(s: State, e: EditModel)
    requires
        settled(s.cells, s.log, s.version),
        undos_marked(s.cells, s.log),
        fits_in(s.cells, e),
        !observes(s.version, local_of(e.timestamp)),
    ensures
        undos_marked(edit_done(s.cells, s.log, e), s.log),
{
    if e.ranges.len() == 0 {
        lemma_no_ranges(s.cells, s.log, e);
    } else {
        let m = marked(s.cells, s.log, e);
        let g = gaps_of(s.cells, s.log, e);
        let d = edit_done(s.cells, s.log, e);
        let n = m.len() as int;
        lemma_places(s.cells, s.log, e);
        lemma_laid_at(m, g, n);
        assert forall|x: int, id: Local, k: int|
            0 <= x < d.len() && concerns(#[trigger] d[x], id) && s.log.contains_key(id) && 0 <= k
                < s.log[id].len() implies observes(
            d[x].max_undos,
            (#[trigger] s.log[id][k]).0,
        ) by {
            assert(observes(s.version, id));
            let i = lemma_stands(m, g, x, n);
            lemma_laid_at(m, g, i);
            let y = low(m, g, i);
            if x < high(m, g, i) {
                assert(d.subrange(y, high(m, g, i))[x - y] == g(i)[x - y]);
            } else {
                assert(d[x] == m[i]);
                assert(concerns(s.cells[i], id));
                assert(observes(s.cells[i].max_undos, s.log[id][k].0));
            }
        }
    }
}

/// So does an undo that reaches what its edits did.
proof fn lemma_undo_keeps_marks(s: State, undo: Undo)
    requires
        undos_marked(s.cells, s.log),
        reaches(s.cells, s.log, s.version, undo),
    ensures
        ({
            let log = log_with(s.log, undo.id, undo.counts);
            undos_marked(undo_applied(s.cells, log, undo), log)
        }),
{
    let log = log_with(s.log, undo.id, undo.counts);
    let d = undo_applied(s.cells, log, undo);
    assert forall|x: int, id: Local, k: int|
        0 <= x < d.len() && concerns(#[trigger] d[x], id) && log.contains_key(id) && 0 <= k
            < log[id].len() implies observes(d[x].max_undos, (#[trigger] log[id][k]).0) by {
        let c = s.cells[x];
        assert(concerns(s.cells[x], id));
        let before = undos_of(s.log, id);
        let t = log[id][k].0;
        if k < before.len() {
            assert(log[id][k] == before[k]);
            assert(observes(s.cells[x].max_undos, s.log[id][k].0));
            assert(seen_of(d[x].max_undos, t.replica_id) >= seen_of(c.max_undos, t.replica_id));
        } else {
            assert(undo.counts.contains_key(id));
            assert(affected(s.cells[x], undo.counts)) by {
                if id != local_of(c.timestamp) {
                    assert(c.deletions.contains(id));
                }
            }
            lemma_reviewed(s, undo, x);
        }
    }
}

/// What a version had shown does not rest on undos that it had not seen.
proof fn lemma_shown_text_same(
    a: Seq<Cell>,
    b: Seq<Cell>,
    log: UndoLog,
    undo: Undo,
    since: Version,
)
    requires
        alike(a, b),
        !observes(since, undo.id),
    ensures
        shown_text(a, since, log_with(log, undo.id, undo.counts)) == shown_text(b, since, log),
    decreases a.len(),
{
    if a.len() > 0 {
        let n = a.len() - 1;
        let after = log_with(log, undo.id, undo.counts);
        let c = a[n];
        assert(c.byte == b[n].byte && c.timestamp == b[n].timestamp && c.deletions
            == b[n].deletions);
        assert(alike(a.drop_last(), b.drop_last())) by {
            assert forall|i: int| 0 <= i < n implies (#[trigger] a.drop_last()[i]).byte
                == b.drop_last()[i].byte && a.drop_last()[i].head == b.drop_last()[i].head
                && a.drop_last()[i].timestamp == b.drop_last()[i].timestamp
                && a.drop_last()[i].deletions == b.drop_last()[i].deletions by {
                assert(a[i].byte == b[i].byte);
            }
        }
        lemma_shown_text_same(a.drop_last(), b.drop_last(), log, undo, since);
        lemma_log_at(log, undo.id, undo.counts, local_of(c.timestamp), since);
        assert forall|d: Local| c.deletions.contains(d) implies undone_at(after, d, since)
            == undone_at(log, d, since) by {
            lemma_log_at(log, undo.id, undo.counts, d, since);
        }
        assert(cell_shown_at(c, since, after) == cell_shown_at(b[n], since, log));
    }
}

/// What was shown at a version is the same before and after operations that it
/// had not seen.
proof fn lemma_taking_keeps_shown(s: State, ops: Seq<OperationModel>, since: Version)
    requires
        settled(s.cells, s.log, s.version),
        undos_marked(s.cells, s.log),
        takes(s, ops),
        undos_reach(s, ops),
        includes(s.version, since),
    ensures
        ({
            let after = took(s, ops);
            &&& settled(after.cells, after.log, after.version)
            &&& undos_marked(after.cells, after.log)
            &&& shown_text(after.cells, since, after.log) == shown_text(s.cells, since, s.log)
        }),
    decreases ops.len(),
{
    if ops.len() > 0 {
        let op = ops[0];
        let next = applied(s, op);
        let t = name_of(op);
        assert(seen_of(s.version, t.replica_id) >= seen_of(since, t.replica_id));
        assert(!observes(since, t));
        lemma_applied(s, op);
        assert forall|r: ReplicaId| seen_of(next.version, r) >= #[trigger] seen_of(since, r) by {
            assert(seen_of(s.version, r) >= seen_of(since, r));
        }
        match op {
            OperationModel::Edit(e) => {
                law_remote_edit_keeps_settled(s, e);
                assert(fits_in(s.cells, e));
                lemma_edit_keeps_marks(s, e);
                if e.ranges.len() > 0 {
                    let n = s.cells.len() as int;
                    lemma_edit_keeps_shown(s.cells, s.log, e, since, n);
                    lemma_places(s.cells, s.log, e);
                    lemma_laid_at(marked(s.cells, s.log, e), gaps_of(s.cells, s.log, e), n);
                    assert(s.cells.take(n) =~= s.cells);
                    assert(next.cells.take(next.cells.len() as int) =~= next.cells);
                } else {
                    lemma_no_ranges(s.cells, s.log, e);
                }
            },
            OperationModel::Undo { undo, lamport } => {
                law_undo_keeps_settled(s, undo, lamport);
                lemma_undo_keeps_marks(s, undo);
                assert(alike(next.cells, s.cells));
                lemma_shown_text_same(next.cells, s.cells, s.log, undo, since);
            },
            _ => {},
        }
        lemma_taking_keeps_shown(next, ops.skip(1), since);
    }
}

/// In a new buffer every cell knows of the undos: there are none.
pub proof fn law_new_buffer_knows_undos(
    replica_id: ReplicaId,
    history: HistoryModel,
    file: Option<FileModel>,
    remote_id: u64,
    language: Option<Language>,
)
    ensures
        ({
            let s = new_state(replica_id, history, file, remote_id, language);
            undos_marked(s.cells, s.log)
        }),
{
}

/// After edits, undos and redos, of this replica or of others, the old text that
/// the changes since the version before them speak of is the text before them,
/// and the changes, made to that text, give the text of today.
pub proof fn law_changes_start_from_old_text(s: State, ops: Seq<OperationModel>)
    requires
        settled(s.cells, s.log, s.version),
        undos_marked(s.cells, s.log),
        takes(s, ops),
        undos_reach(s, ops),
    ensures
        ({
            let after = took(s, ops);
            let w = Comparison { cells: after.cells, since: s.version, log: after.log };
            &&& w.old_text(w.len()) == s.text()
            &&& patched(s.text(), after.text(), w.spans(w.len())) == after.text()
            &&& after.text().len() == s.text().len() + growth(
                w.spans(w.len()),
                w.spans(w.len()).len() as int,
            )
            &&& undos_marked(after.cells, after.log)
        }),
{
    lemma_taking_keeps_shown(s, ops, s.version);
    let after = took(s, ops);
    let w = Comparison { cells: after.cells, since: s.version, log: after.log };
    let n = after.cells.len() as int;
    lemma_old_text_shown(after.cells, after.log, after.version, s.version, n);
    assert(after.cells.take(n) =~= after.cells);
    lemma_shown_now(s.cells, s.log, s.version, s.cells.len() as int);
    assert(s.cells.take(s.cells.len() as int) =~= s.cells);
    law_changes_rebuild_text(w);
}

/// Nothing has changed since the version of today.
pub proof fn law_nothing_changed_since_now(s: State)
    ensures
        s.changes_since(s.version).len() == 0,
{
}

/// A syntax tree that has been brought up to date stays as it is until the text
/// changes.
pub proof fn law_tree_is_brought_up_to_date_once(s: State)
    ensures
        interpolated(interpolated(s)) == interpolated(s),
        snapshot_of(interpolated(s)) == snapshot_of(s),
{
    let now = interpolated(s);
    law_nothing_changed_since_now(now);
    assert(current_tree(now) == current_tree(s));
}

} // verus!
