//! Edits that fit in one order fit in every other.

use vstd::prelude::*;

use crate::converge::{
    edit_done, gaps_of, high, laid, lemma_gaps_made, lemma_laid_at, lemma_new_text, lemma_places,
    lemma_seek_laid, lemma_stands, low, marked, new_cells, placed_in, plan_of, rising, unaware,
    within,
};
use crate::document::{Cell, seen_rank};
use crate::fragment::{lamport_of, local_of};
use crate::operation::{EditModel, bytes_of};
use crate::replica_laws::{lemma_clear_same, lemma_rank_same, lemma_seek_same, lemma_skip_same};
use crate::replicas::{edits_done, fits_in, lemma_no_ranges, lemma_swap};
use crate::undo_map::UndoLog;
use crate::weave::{
    clear, cuttable, lemma_seek, lemma_skip_stops, lemma_woven_len, remote_at, seek, touched, woven,
};

verus! {

/// Within a fragment all cells were inserted together.
pub open spec fn uniform(cells: Seq<Cell>) -> bool {
    forall|i: int|
        0 < i < cells.len() && !(#[trigger] cells[i]).head ==> cells[i].timestamp == cells[i
            - 1].timestamp
}

/// The ranges of an edit do not cut a character in two.
pub open spec fn cuts_between(cells: Seq<Cell>, e: EditModel) -> bool {
    forall|k: int|
        0 <= k < e.ranges.len() ==> cuttable(
            cells,
            seek(cells, e.version, (#[trigger] e.ranges[k]).0),
        ) && cuttable(cells, seek(cells, e.version, e.ranges[k].1))
}

/// The edit has no ranges, or names places of the document, between characters.
pub open spec fn fits_well(cells: Seq<Cell>, e: EditModel) -> bool {
    e.ranges.len() > 0 ==> placed_in(cells, e) && cuts_between(cells, e)
}

/// Each edit fits the document that it finds.
pub open spec fn edits_fit(cells: Seq<Cell>, log: UndoLog, edits: Seq<EditModel>) -> bool
    decreases edits.len(),
{
    edits.len() > 0 ==> fits_well(cells, edits[0]) && edits_fit(
        edit_done(cells, log, edits[0]),
        log,
        edits.skip(1),
    )
}

/// An edit leaves fragments uniform.
pub proof fn lemma_edit_uniform(cells: Seq<Cell>, log: UndoLog, e: EditModel)
    requires
        uniform(cells),
        fits_in(cells, e),
    ensures
        uniform(edit_done(cells, log, e)),
{
    if e.ranges.len() == 0 {
        lemma_no_ranges(cells, log, e);
    } else {
        let m = marked(cells, log, e);
        let g = gaps_of(cells, log, e);
        let d = edit_done(cells, log, e);
        let n = m.len() as int;
        lemma_places(cells, log, e);
        lemma_laid_at(m, g, n);
        lemma_new_text(plan_of(cells, log, e).at, e.timestamp, bytes_of(e.new_text));
        assert forall|x: int| 0 < x < d.len() && !(#[trigger] d[x]).head implies d[x].timestamp
            == d[x - 1].timestamp by {
            let i = lemma_stands(m, g, x, n);
            lemma_laid_at(m, g, i);
            let y = low(m, g, i);
            let h = high(m, g, i);
            if x < h {
                assert(d.subrange(y, h)[x - y] == g(i)[x - y]);
                if x > y {
                    assert(d.subrange(y, h)[x - 1 - y] == g(i)[x - 1 - y]);
                } else {
                    assert(g(i)[0].head);
                }
            } else {
                assert(d[x] == m[i]);
                if h > y {
                    // The text cuts the cell off.
                    assert(plan_of(cells, log, e).at.contains(i));
                    assert(plan_of(cells, log, e).cut(i));
                } else {
                    if i > 0 {
                        lemma_laid_at(m, g, i - 1);
                        assert(d[x - 1] == m[i - 1]);
                        assert(!cells[i].head);
                    } else {
                        assert(y == 0) by {
                            assert(laid(m, g, 0).len() == 0);
                        }
                    }
                }
            }
        }
    }
}

/// An edit that does not cut characters does not do so after one that it has not
/// seen.
pub proof fn lemma_cuts_after(cells: Seq<Cell>, log: UndoLog, a: EditModel, b: EditModel)
    requires
        placed_in(cells, a),
        placed_in(cells, b),
        unaware(b, a),
        cuts_between(cells, b),
    ensures
        cuts_between(edit_done(cells, log, a), b),
{
    let d = edit_done(cells, log, a);
    assert forall|k: int| 0 <= k < b.ranges.len() implies cuttable(
        d,
        seek(d, b.version, (#[trigger] b.ranges[k]).0),
    ) && cuttable(d, seek(d, b.version, b.ranges[k].1)) by {
        assert(0 <= b.ranges[k].0 <= b.ranges[k].1);
        lemma_cut_after(cells, log, a, b, b.ranges[k].0);
        lemma_cut_after(cells, log, a, b, b.ranges[k].1);
    }
}

proof fn lemma_cut_after(cells: Seq<Cell>, log: UndoLog, a: EditModel, b: EditModel, offset: int)
    requires
        placed_in(cells, a),
        unaware(b, a),
        0 <= offset <= seen_rank(cells, b.version, cells.len() as int),
        cuttable(cells, seek(cells, b.version, offset)),
    ensures
        cuttable(
            edit_done(cells, log, a),
            seek(edit_done(cells, log, a), b.version, offset),
        ),
{
    let v = b.version;
    let m = marked(cells, log, a);
    let g = gaps_of(cells, log, a);
    let d = edit_done(cells, log, a);
    lemma_places(cells, log, a);
    lemma_gaps_made(cells, log, a, b);
    lemma_seek(cells, v, offset);
    lemma_seek_laid(cells, m, g, v, offset);
    let i = seek(cells, v, offset);
    let x = low(m, g, i);
    lemma_laid_at(m, g, i);
    if g(i).len() > 0 {
        assert(d.subrange(x, high(m, g, i))[0] == g(i)[0]);
    } else if i < cells.len() {
        assert(d[x] == m[i]);
    }
}

/// An edit that does not cut characters after another one that it has not seen
/// does not do so before it.
proof fn lemma_cuts_before(cells: Seq<Cell>, log: UndoLog, a: EditModel, b: EditModel)
    requires
        uniform(cells),
        placed_in(cells, a),
        cuts_between(cells, a),
        placed_in(cells, b),
        unaware(b, a),
        cuts_between(edit_done(cells, log, a), b),
    ensures
        cuts_between(cells, b),
{
    assert forall|k: int| 0 <= k < b.ranges.len() implies cuttable(
        cells,
        seek(cells, b.version, (#[trigger] b.ranges[k]).0),
    ) && cuttable(cells, seek(cells, b.version, b.ranges[k].1)) by {
        assert(0 <= b.ranges[k].0 <= b.ranges[k].1);
        lemma_cut_before(cells, log, a, b, b.ranges[k].0);
        lemma_cut_before(cells, log, a, b, b.ranges[k].1);
    }
}

/// The places where an edit cuts lie between characters.
proof fn lemma_own_cuts(cells: Seq<Cell>, log: UndoLog, a: EditModel, i: int)
    requires
        uniform(cells),
        placed_in(cells, a),
        cuts_between(cells, a),
        plan_of(cells, log, a).cut(i),
        0 <= i < cells.len(),
    ensures
        cuttable(cells, i),
{
    let v = a.version;
    let lamport = lamport_of(a.timestamp);
    let plan = plan_of(cells, log, a);
    let k = if plan.at.contains(i) {
        plan.at.index_of(i)
    } else {
        plan.ends.index_of(i)
    };
    let r = a.ranges[k];
    assert(0 <= a.ranges[k].0 <= a.ranges[k].1);
    assert(cuttable(cells, seek(cells, v, a.ranges[k].0)));
    lemma_seek(cells, v, r.0);
    let p = seek(cells, v, r.0);
    lemma_skip_stops(cells, lamport, p);
    if i == remote_at(cells, v, lamport, r.0) && i > p {
        // What comes before is newer than the edit, and this is not.
        assert(cells[i - 1].timestamp != cells[i].timestamp);
    }
}

proof fn lemma_cut_before(cells: Seq<Cell>, log: UndoLog, a: EditModel, b: EditModel, offset: int)
    requires
        uniform(cells),
        placed_in(cells, a),
        cuts_between(cells, a),
        unaware(b, a),
        0 <= offset <= seen_rank(cells, b.version, cells.len() as int),
        cuttable(
            edit_done(cells, log, a),
            seek(edit_done(cells, log, a), b.version, offset),
        ),
    ensures
        cuttable(cells, seek(cells, b.version, offset)),
{
    let v = b.version;
    let m = marked(cells, log, a);
    let g = gaps_of(cells, log, a);
    let d = edit_done(cells, log, a);
    let plan = plan_of(cells, log, a);
    lemma_places(cells, log, a);
    lemma_gaps_made(cells, log, a, b);
    lemma_seek(cells, v, offset);
    lemma_seek_laid(cells, m, g, v, offset);
    let i = seek(cells, v, offset);
    let x = low(m, g, i);
    lemma_laid_at(m, g, i);
    if i < cells.len() {
        if plan.cut(i) {
            lemma_own_cuts(cells, log, a, i);
        } else {
            assert(!plan.at.contains(i));
            assert(g(i).len() == 0);
            assert(d[x] == m[i]);
        }
    }
}

/// Two edits that do not know of each other, the second of them made first.
proof fn lemma_swap_fits(cells: Seq<Cell>, log: UndoLog, a: EditModel, b: EditModel)
    requires
        uniform(cells),
        fits_well(cells, a),
        fits_well(edit_done(cells, log, a), b),
        unaware(a, b),
        unaware(b, a),
        lamport_of(a.timestamp) != lamport_of(b.timestamp),
    ensures
        fits_well(cells, b),
        fits_well(edit_done(cells, log, b), a),
        edit_done(edit_done(cells, log, a), log, b) == edit_done(
            edit_done(cells, log, b),
            log,
            a,
        ),
{
    lemma_swap(cells, log, a, b);
    if a.ranges.len() == 0 {
        lemma_no_ranges(cells, log, a);
    } else if b.ranges.len() == 0 {
        lemma_no_ranges(cells, log, b);
    } else {
        lemma_cuts_before(cells, log, a, b);
        lemma_cuts_after(cells, log, b, a);
    }
}

/// An edit comes to the front past others that it does not know of, and that do
/// not know of it.
pub proof fn lemma_front_fits(cells: Seq<Cell>, log: UndoLog, edits: Seq<EditModel>, j: int)
    requires
        uniform(cells),
        0 <= j < edits.len(),
        edits_fit(cells, log, edits),
        forall|i: int|
            0 <= i < j ==> unaware(#[trigger] edits[i], edits[j]) && unaware(edits[j], edits[i])
                && lamport_of(edits[i].timestamp) != lamport_of(edits[j].timestamp),
    ensures
        fits_well(cells, edits[j]),
        edits_fit(edit_done(cells, log, edits[j]), log, edits.remove(j)),
        edits_done(edit_done(cells, log, edits[j]), log, edits.remove(j)) == edits_done(
            cells,
            log,
            edits,
        ),
    decreases j,
{
    if j == 0 {
        assert(edits.remove(0) =~= edits.skip(1));
    } else {
        let first = edits[0];
        let moved = edits[j];
        let d = edit_done(cells, log, first);
        let rest = edits.skip(1);
        assert forall|i: int| 0 <= i < j - 1 implies unaware(#[trigger] rest[i], rest[j - 1])
            && unaware(rest[j - 1], rest[i]) && lamport_of(rest[i].timestamp) != lamport_of(
            rest[j - 1].timestamp,
        ) by {
            assert(unaware(edits[i + 1], edits[j]));
        }
        assert(rest[j - 1] == moved);
        lemma_edit_uniform(cells, log, first);
        lemma_front_fits(d, log, rest, j - 1);
        assert(unaware(edits[0], edits[j]));
        lemma_swap_fits(cells, log, first, moved);
        let after = edits.remove(j);
        assert(after[0] == first);
        assert(after.skip(1) =~= rest.remove(j - 1));
    }
}

/// An edit adds its text to each of its ranges.
pub proof fn lemma_edit_len(cells: Seq<Cell>, log: UndoLog, e: EditModel)
    requires
        fits_in(cells, e),
    ensures
        edit_done(cells, log, e).len() == cells.len() + e.ranges.len() * bytes_of(
            e.new_text,
        ).len(),
{
    if e.ranges.len() == 0 {
        lemma_no_ranges(cells, log, e);
        assert(0 * bytes_of(e.new_text).len() == 0) by (nonlinear_arith);
    } else {
        let plan = plan_of(cells, log, e);
        lemma_places(cells, log, e);
        lemma_woven_len(
            touched(cells, plan, local_of(e.timestamp)),
            plan.at,
            new_cells(e),
            plan.at.len() as int,
            cells.len() as int,
        );
        assert(new_cells(e).len() == bytes_of(e.new_text).len());
    }
}

/// Edits do not make the document shorter.
pub proof fn lemma_edits_len(cells: Seq<Cell>, log: UndoLog, edits: Seq<EditModel>)
    requires
        edits_fit(cells, log, edits),
    ensures
        cells.len() <= edits_done(cells, log, edits).len(),
    decreases edits.len(),
{
    if edits.len() > 0 {
        lemma_edit_len(cells, log, edits[0]);
        assert(0 <= edits[0].ranges.len() * bytes_of(edits[0].new_text).len())
            by (nonlinear_arith);
        lemma_edits_len(edit_done(cells, log, edits[0]), log, edits.skip(1));
    }
}

/// Cells of the same text, cut in the same way, whichever of them are shown.
pub open spec fn same_shape(a: Seq<Cell>, b: Seq<Cell>) -> bool {
    &&& a.len() == b.len()
    &&& forall|i: int|
        0 <= i < a.len() ==> (#[trigger] a[i]).timestamp == b[i].timestamp && a[i].head
            == b[i].head && a[i].byte == b[i].byte
}

/// Whether an edit fits depends on the text and where it is cut alone.
proof fn lemma_shape_fits(a: Seq<Cell>, b: Seq<Cell>, e: EditModel)
    requires
        same_shape(a, b),
        fits_well(a, e),
    ensures
        fits_well(b, e),
{
    let v = e.version;
    if e.ranges.len() > 0 {
        lemma_rank_same(a, b, v, a.len() as int);
        assert forall|k: int| 0 <= k < e.ranges.len() implies (#[trigger] e.ranges[k]).1
            <= seen_rank(b, v, b.len() as int) && clear(
            b,
            v,
            lamport_of(e.timestamp),
            e.ranges[k].0,
        ) && cuttable(b, seek(b, v, e.ranges[k].0)) && cuttable(b, seek(b, v, e.ranges[k].1)) by {
            assert(0 <= e.ranges[k].0 <= e.ranges[k].1);
            lemma_clear_same(a, b, v, lamport_of(e.timestamp), e.ranges[k].0);
            lemma_seek_same(a, b, v, e.ranges[k].0, 0);
            lemma_seek_same(a, b, v, e.ranges[k].1, 0);
            lemma_seek(a, v, e.ranges[k].0);
            lemma_seek(a, v, e.ranges[k].1);
        }
    }
}

proof fn lemma_shape_woven(
    a: Seq<Cell>,
    b: Seq<Cell>,
    at: Seq<int>,
    text: Seq<Cell>,
    k: int,
    p: int,
)
    requires
        same_shape(a, b),
        0 <= k <= at.len(),
        0 <= p <= a.len(),
        k > 0 ==> at[k - 1] <= p,
        rising(at),
        within(at, a.len() as int),
    ensures
        same_shape(woven(a, at, text, k, p), woven(b, at, text, k, p)),
    decreases k,
{
    let x = woven(a, at, text, k, p);
    let y = woven(b, at, text, k, p);
    if k > 0 {
        let q = at[k - 1];
        if k > 1 {
            assert(at[k - 2] <= at[k - 1]);
        }
        lemma_shape_woven(a, b, at, text, k - 1, q);
        let v = woven(a, at, text, k - 1, q);
        let w = woven(b, at, text, k - 1, q);
        assert forall|i: int| 0 <= i < x.len() implies (#[trigger] x[i]).timestamp == y[i].timestamp
            && x[i].head == y[i].head && x[i].byte == y[i].byte by {
            if i < v.len() {
                assert(x[i] == v[i] && y[i] == w[i]);
            } else if i < v.len() + text.len() {
                assert(x[i] == y[i]);
            } else {
                let j = q + (i - v.len() - text.len());
                assert(x[i] == a[j] && y[i] == b[j]);
            }
        }
    } else {
        assert forall|i: int| 0 <= i < x.len() implies (#[trigger] x[i]).timestamp == y[i].timestamp
            && x[i].head == y[i].head && x[i].byte == y[i].byte by {
            assert(x[i] == a[i] && y[i] == b[i]);
        }
    }
}

/// An edit leaves two documents of the same shape with the same shape.
proof fn lemma_shape_done(a: Seq<Cell>, b: Seq<Cell>, x: UndoLog, y: UndoLog, e: EditModel)
    requires
        same_shape(a, b),
        fits_well(a, e),
    ensures
        same_shape(edit_done(a, x, e), edit_done(b, y, e)),
{
    if e.ranges.len() == 0 {
        lemma_no_ranges(a, x, e);
        lemma_no_ranges(b, y, e);
    } else {
        let p = plan_of(a, x, e);
        let q = plan_of(b, y, e);
        let id = local_of(e.timestamp);
        lemma_shape_fits(a, b, e);
        lemma_places(a, x, e);
        assert forall|k: int| 0 <= k < e.ranges.len() implies p.at[k] == q.at[k] && p.ends[k]
            == q.ends[k] by {
            assert(0 <= e.ranges[k].0 <= e.ranges[k].1);
            lemma_seek_same(a, b, e.version, e.ranges[k].0, 0);
            lemma_seek_same(a, b, e.version, e.ranges[k].1, 0);
            lemma_skip_same(
                a,
                b,
                lamport_of(e.timestamp),
                seek(a, e.version, e.ranges[k].0),
            );
        }
        assert(p.at =~= q.at);
        assert(p.ends =~= q.ends);
        let m = touched(a, p, id);
        let n = touched(b, q, id);
        assert forall|i: int| 0 <= i < m.len() implies (#[trigger] m[i]).timestamp == n[i].timestamp
            && m[i].head == n[i].head && m[i].byte == n[i].byte by {
            assert(a[i].timestamp == b[i].timestamp);
        }
        if p.at.len() > 0 {
            assert(p.at[p.at.len() - 1] <= a.len());
        }
        lemma_shape_woven(m, n, p.at, new_cells(e), p.at.len() as int, a.len() as int);
    }
}

/// Whether edits fit, and how much text there is after them, depends on the text
/// and where it is cut alone, not on what is shown or has been undone.
pub proof fn lemma_shape_all(
    a: Seq<Cell>,
    b: Seq<Cell>,
    x: UndoLog,
    y: UndoLog,
    edits: Seq<EditModel>,
)
    requires
        same_shape(a, b),
        edits_fit(a, x, edits),
    ensures
        edits_fit(b, y, edits),
        edits_done(a, x, edits).len() == edits_done(b, y, edits).len(),
    decreases edits.len(),
{
    if edits.len() > 0 {
        let e = edits[0];
        lemma_shape_fits(a, b, e);
        lemma_shape_done(a, b, x, y, e);
        lemma_shape_all(edit_done(a, x, e), edit_done(b, y, e), x, y, edits.skip(1));
    }
}

} // verus!
