//! Laws of edits: what they do to the text that a reader sees, and that every
//! replica makes the same of them.

use vstd::prelude::*;

use crate::clock::{Version, after, observes};
use crate::document::{
    Cell, Doc, lemma_bytes_where_concat, lemma_cell, lemma_cells_len, seen_rank, visible_rank,
    visible_text,
};
use crate::fragment::{InsertionTimestamp, lamport_of, local_of};
use crate::local::{
    full_ranges, lemma_is_visible_at, lemma_local_hit, lemma_local_plan, lemma_local_range,
    lemma_visible_at,
};
use crate::undo_map::UndoLog;
use crate::weave::{
    cell_shown_at, clear, cuttable, edited, in_ranges, inserted_cells, lemma_plain_plan, lemma_seek,
    lemma_visible_rank_grows, local_at, local_end, local_ok, local_plan, placed, plain_plan,
    remote_ok, remote_plan, seek, touched, woven,
};

verus! {

/// The first `p` bytes of a text in which the first `k` ranges have been
/// replaced.
pub open spec fn replaced_upto(
    text: Seq<u8>,
    ranges: Seq<(int, int)>,
    new: Seq<u8>,
    k: int,
    p: int,
) -> Seq<u8>
    decreases k,
{
    if k <= 0 {
        text.subrange(0, p)
    } else {
        replaced_upto(text, ranges, new, k - 1, ranges[k - 1].0) + new + text.subrange(
            ranges[k - 1].1,
            p,
        )
    }
}

/// A text in which each of the ranges has been replaced by `new`.
pub open spec fn replaced(text: Seq<u8>, ranges: Seq<(int, int)>, new: Seq<u8>) -> Seq<u8> {
    replaced_upto(text, ranges, new, ranges.len() as int, text.len() as int)
}

proof fn lemma_visible_text_upto(cells: Seq<Cell>, p: int)
    requires
        0 <= p <= cells.len(),
    ensures
        visible_text(cells.take(p)).len() == visible_rank(cells, p),
    decreases p,
{
    if p > 0 {
        lemma_visible_text_upto(cells, p - 1);
        assert(cells.take(p).drop_last() =~= cells.take(p - 1));
    } else {
        assert(cells.take(0) =~= Seq::<Cell>::empty());
    }
}

/// The visible text of some of the cells is part of that of all of them.
pub proof fn lemma_visible_part(cells: Seq<Cell>, a: int, b: int)
    requires
        0 <= a <= b <= cells.len(),
    ensures
        0 <= visible_rank(cells, a) <= visible_rank(cells, b) <= visible_text(cells).len(),
        visible_text(cells).len() == visible_rank(cells, cells.len() as int),
        visible_text(cells.subrange(a, b)) == visible_text(cells).subrange(
            visible_rank(cells, a),
            visible_rank(cells, b),
        ),
{
    lemma_visible_rank_grows(cells, 0, a);
    lemma_visible_rank_grows(cells, a, b);
    lemma_visible_rank_grows(cells, b, cells.len() as int);
    lemma_visible_text_upto(cells, a);
    lemma_visible_text_upto(cells, b);
    lemma_visible_text_upto(cells, cells.len() as int);
    assert(cells.take(cells.len() as int) =~= cells);
    let x = cells.take(a);
    let y = cells.subrange(a, b);
    let z = cells.skip(b);
    assert(cells =~= x + (y + z));
    lemma_bytes_where_concat(x, y + z, true);
    lemma_bytes_where_concat(y, z, true);
    assert(cells.take(b) =~= x + y);
    lemma_bytes_where_concat(x, y, true);
    assert(visible_text(y) =~= visible_text(cells).subrange(
        visible_rank(cells, a),
        visible_rank(cells, b),
    ));
}

pub proof fn lemma_nothing_visible(cells: Seq<Cell>)
    requires
        forall|i: int| 0 <= i < cells.len() ==> !(#[trigger] cells[i]).visible,
    ensures
        visible_text(cells) == Seq::<u8>::empty(),
    decreases cells.len(),
{
    if cells.len() > 0 {
        lemma_nothing_visible(cells.drop_last());
    }
}

pub proof fn lemma_same_visible(a: Seq<Cell>, b: Seq<Cell>)
    requires
        a.len() == b.len(),
        forall|i: int|
            0 <= i < a.len() ==> (#[trigger] a[i]).visible == b[i].visible && a[i].byte
                == b[i].byte,
    ensures
        visible_text(a) == visible_text(b),
    decreases a.len(),
{
    if a.len() > 0 {
        assert(a[a.len() - 1].visible == b[a.len() - 1].visible);
        lemma_same_visible(a.drop_last(), b.drop_last());
    }
}

proof fn lemma_inserted_text(timestamp: InsertionTimestamp, text: Seq<u8>)
    ensures
        visible_text(inserted_cells(timestamp, text)) == text,
    decreases text.len(),
{
    let c = inserted_cells(timestamp, text);
    lemma_all_visible(c);
    assert(visible_text(c) =~= text);
}

proof fn lemma_all_visible(cells: Seq<Cell>)
    requires
        forall|i: int| 0 <= i < cells.len() ==> (#[trigger] cells[i]).visible,
    ensures
        visible_text(cells) == cells.map_values(|c: Cell| c.byte),
    decreases cells.len(),
{
    if cells.len() > 0 {
        lemma_all_visible(cells.drop_last());
        assert(cells.map_values(|c: Cell| c.byte) =~= cells.drop_last().map_values(
            |c: Cell| c.byte,
        ).push(cells.last().byte));
    } else {
        assert(cells.map_values(|c: Cell| c.byte) =~= Seq::<u8>::empty());
    }
}

/// The visible text of what an edit weaves, up to a place between two ranges.
proof fn lemma_woven_text_visible(
    cells: Seq<Cell>,
    ranges: Seq<(int, int)>,
    timestamp: InsertionTimestamp,
    text: Seq<u8>,
    k: int,
    p: int,
)
    requires
        local_ok(cells, ranges, text),
        0 <= k <= ranges.len(),
        0 <= p <= cells.len(),
        k > 0 ==> local_end(cells, ranges, k - 1) <= p,
        k < ranges.len() ==> p <= local_at(cells, ranges, k),
    ensures
        visible_text(
            woven(
                touched(cells, local_plan(cells, ranges), local_of(timestamp)),
                local_plan(cells, ranges).at,
                inserted_cells(timestamp, text),
                k,
                p,
            ),
        ) == replaced_upto(visible_text(cells), ranges, text, k, visible_rank(cells, p)),
    decreases k,
{
    let plan = local_plan(cells, ranges);
    let m = touched(cells, plan, local_of(timestamp));
    let t = inserted_cells(timestamp, text);
    lemma_local_plan(cells, ranges, text);
    let from = if k > 0 {
        local_end(cells, ranges, k - 1)
    } else {
        0
    };
    if k > 0 {
        lemma_local_range(cells, ranges, text, k - 1);
    }
    assert(visible_text(m.subrange(from, p)) == visible_text(cells).subrange(
        visible_rank(cells, from),
        visible_rank(cells, p),
    )) by {
        crate::weave::lemma_gap(plan, cells.len() as int, k, from, p);
        assert forall|i: int| 0 <= i < p - from implies (#[trigger] m.subrange(from, p)[i]).visible
            == cells.subrange(from, p)[i].visible && m.subrange(from, p)[i].byte
            == cells.subrange(from, p)[i].byte by {
            assert(!plan.hits.contains(from + i));
        }
        lemma_same_visible(m.subrange(from, p), cells.subrange(from, p));
        lemma_visible_part(cells, from, p);
    }
    if k > 0 {
        let at = local_at(cells, ranges, k - 1);
        assert(plan.at[k - 1] == at);
        if k > 1 {
            assert(local_end(cells, ranges, k - 2) < at);
        }
        lemma_woven_text_visible(cells, ranges, timestamp, text, k - 1, at);
        lemma_inserted_text(timestamp, text);
        let hidden = m.subrange(at, from);
        assert forall|i: int| 0 <= i < hidden.len() implies !(#[trigger] hidden[i]).visible by {
            if cells[at + i].visible {
                lemma_local_hit(cells, ranges, text, k - 1, at + i);
                assert(in_ranges(ranges, visible_rank(cells, at + i)));
            }
        }
        lemma_nothing_visible(hidden);
        let w = woven(m, plan.at, t, k - 1, at);
        assert(m.subrange(at, p) =~= hidden + m.subrange(from, p));
        lemma_bytes_where_concat(hidden, m.subrange(from, p), true);
        lemma_bytes_where_concat(w, t, true);
        lemma_bytes_where_concat(w + t, m.subrange(at, p), true);
        assert(visible_text(hidden) + visible_text(m.subrange(from, p)) =~= visible_text(
            m.subrange(from, p),
        ));
    }
}

/// An edit replaces the given ranges of the visible text by the new text.
pub proof fn law_edit_replaces_text(
    cells: Seq<Cell>,
    ranges: Seq<(int, int)>,
    timestamp: InsertionTimestamp,
    text: Seq<u8>,
)
    requires
        local_ok(cells, ranges, text),
    ensures
        visible_text(edited(cells, local_plan(cells, ranges), timestamp, text)) == replaced(
            visible_text(cells),
            ranges,
            text,
        ),
{
    lemma_local_plan(cells, ranges, text);
    if ranges.len() > 0 {
        lemma_local_range(cells, ranges, text, ranges.len() - 1);
    }
    lemma_woven_text_visible(
        cells,
        ranges,
        timestamp,
        text,
        ranges.len() as int,
        cells.len() as int,
    );
    lemma_visible_part(cells, 0, cells.len() as int);
}

pub proof fn lemma_all_seen(cells: Seq<Cell>, v: Version, p: int)
    requires
        0 <= p <= cells.len(),
        forall|i: int|
            0 <= i < cells.len() ==> observes(v, local_of((#[trigger] cells[i]).timestamp)),
    ensures
        seen_rank(cells, v, p) == p,
    decreases p,
{
    if p > 0 {
        lemma_all_seen(cells, v, p - 1);
        assert(observes(v, local_of(cells[p - 1].timestamp)));
    }
}

/// An edit names places that a replica finds in the state in which it was made,
/// and they are those where it was made.
pub proof fn law_local_edit_lands(
    cells: Seq<Cell>,
    log: UndoLog,
    v: Version,
    ranges: Seq<(int, int)>,
    timestamp: InsertionTimestamp,
    text: Seq<u8>,
)
    requires
        local_ok(cells, ranges, text),
        forall|i: int|
            0 <= i < cells.len() ==> observes(v, local_of((#[trigger] cells[i]).timestamp)),
        forall|i: int|
            0 <= i < cells.len() ==> (#[trigger] cells[i]).visible == cell_shown_at(
                cells[i],
                v,
                log,
            ),
        forall|i: int|
            0 <= i < cells.len() ==> !after(
                lamport_of((#[trigger] cells[i]).timestamp),
                lamport_of(timestamp),
            ),
    ensures
        placed(cells, v, lamport_of(timestamp), full_ranges(cells, ranges)),
        plain_plan(cells, log, v, lamport_of(timestamp), full_ranges(cells, ranges))
            == local_plan(cells, ranges),
        forall|p: int| 0 <= p <= cells.len() ==> #[trigger] seek(cells, v, p) == p,
{
    let full = full_ranges(cells, ranges);
    let lamport = lamport_of(timestamp);
    lemma_local_plan(cells, ranges, text);
    lemma_all_seen(cells, v, cells.len() as int);
    assert forall|k: int| 0 <= k < full.len() implies 0 <= (#[trigger] full[k]).0 <= full[k].1
        <= cells.len() by {
        lemma_local_range(cells, ranges, text, k);
    }
    assert forall|j: int, k: int| 0 <= j < k < full.len() implies (#[trigger] full[j]).1 < (
    #[trigger] full[k]).0 by {
        assert(local_end(cells, ranges, j) < local_at(cells, ranges, k));
    }
    assert forall|p: int| 0 <= p <= cells.len() implies #[trigger] seek(cells, v, p) == p by {
        lemma_seek(cells, v, p);
        lemma_all_seen(cells, v, seek(cells, v, p));
    }
    assert forall|k: int| 0 <= k < full.len() implies (#[trigger] full[k]).1 <= seen_rank(
        cells,
        v,
        cells.len() as int,
    ) && clear(cells, v, lamport, full[k].0) by {
        lemma_local_range(cells, ranges, text, k);
        lemma_all_seen(cells, v, full[k].0);
        assert(seek(cells, v, full[k].0) == full[k].0);
        assert(seek(cells, v, full[k].1) == full[k].1);
    }
    let a = plain_plan(cells, log, v, lamport, full);
    let b = local_plan(cells, ranges);
    assert forall|k: int| 0 <= k < full.len() implies a.at[k] == b.at[k] && a.ends[k]
        == b.ends[k] by {
        assert(0 <= full[k].0 <= full[k].1 <= cells.len());
        assert(seek(cells, v, full[k].0) == full[k].0);
        assert(seek(cells, v, full[k].1) == full[k].1);
    }
    assert(a.at =~= b.at);
    assert(a.ends =~= b.ends);
    assert forall|i: int| a.hits.contains(i) <==> b.hits.contains(i) by {
        if 0 <= i < cells.len() {
            lemma_all_seen(cells, v, i);
            if a.hits.contains(i) {
                let k = choose|k: int|
                    0 <= k < full.len() && (#[trigger] full[k]).0 <= i < full[k].1;
                lemma_local_hit(cells, ranges, text, k, i);
                assert(in_ranges(ranges, visible_rank(cells, i)));
            }
            if b.hits.contains(i) {
                let x = visible_rank(cells, i);
                let k = choose|k: int|
                    0 <= k < ranges.len() && (#[trigger] ranges[k]).0 <= x < ranges[k].1;
                lemma_local_hit(cells, ranges, text, k, i);
                assert(full[k].0 <= i < full[k].1);
                assert(in_ranges(full, i));
            }
        }
    }
    assert(a.hits =~= b.hits);
}

/// An edit that comes back to a replica in the state in which it was made, or
/// that reaches another replica in that state, does there what it did where it
/// was made.
pub proof fn law_replay_of_local_edit(
    d: Doc,
    log: UndoLog,
    v: Version,
    ranges: Seq<(int, int)>,
    timestamp: InsertionTimestamp,
    text: Seq<u8>,
)
    requires
        d.wf(),
        local_ok(d.cells(), ranges, text),
        forall|i: int|
            0 <= i < d.cells().len() ==> observes(v, local_of((#[trigger] d.cells()[i]).timestamp)),
        forall|i: int|
            0 <= i < d.cells().len() ==> (#[trigger] d.cells()[i]).visible == cell_shown_at(
                d.cells()[i],
                v,
                log,
            ),
        forall|i: int|
            0 <= i < d.cells().len() ==> !after(
                lamport_of((#[trigger] d.cells()[i]).timestamp),
                lamport_of(timestamp),
            ),
    ensures
        remote_ok(d.cells(), log, v, lamport_of(timestamp), full_ranges(d.cells(), ranges), text),
        remote_plan(d.cells(), log, v, lamport_of(timestamp), full_ranges(d.cells(), ranges))
            == local_plan(d.cells(), ranges),
{
    let cells = d.cells();
    let full = full_ranges(cells, ranges);
    law_local_edit_lands(cells, log, v, ranges, timestamp, text);
    lemma_plain_plan(cells, log, v, lamport_of(timestamp), full);
    lemma_local_plan(cells, ranges, text);
    lemma_all_seen(cells, v, cells.len() as int);
    assert forall|k: int| 0 <= k < full.len() implies cuttable(
        cells,
        seek(cells, v, (#[trigger] full[k]).0),
    ) && cuttable(cells, seek(cells, v, full[k].1)) by {
        lemma_local_range(cells, ranges, text, k);
        lemma_local_end_cuttable(d, ranges, text, k);
        assert(seek(cells, v, full[k].0) == full[k].0);
        assert(seek(cells, v, full[k].1) == full[k].1);
    }
}

/// A range of visible text does not end inside a character.
proof fn lemma_local_end_cuttable(d: Doc, ranges: Seq<(int, int)>, text: Seq<u8>, k: int)
    requires
        d.wf(),
        local_ok(d.cells(), ranges, text),
        0 <= k < ranges.len(),
    ensures
        cuttable(d.cells(), local_end(d.cells(), ranges, k)),
{
    let cells = d.cells();
    lemma_local_range(cells, ranges, text, k);
    let p = local_end(cells, ranges, k);
    assert(0 <= ranges[k].0 <= ranges[k].1 <= visible_rank(cells, cells.len() as int));
    if ranges[k].0 < ranges[k].1 && p < cells.len() && !cells[p].head {
        lemma_visible_at(cells, ranges[k].1 - 1);
        lemma_uniform(d, p);
        lemma_is_visible_at(cells, p);
    }
}

/// Within a fragment all cells are alike.
pub proof fn lemma_uniform(d: Doc, p: int)
    requires
        d.wf(),
        0 < p < d.cells().len(),
        !d.cells()[p].head,
    ensures
        d.cells()[p].visible == d.cells()[p - 1].visible,
        d.cells()[p].timestamp == d.cells()[p - 1].timestamp,
        d.cells()[p].deletions == d.cells()[p - 1].deletions,
        d.cells()[p].max_undos == d.cells()[p - 1].max_undos,
{
    lemma_cells_len(d, d.n());
    let i = lemma_fragment_of(d, p, d.n());
    lemma_cell(d, i, p - d.len_before(i));
    lemma_cell(d, i, p - 1 - d.len_before(i));
}

/// The fragment that a cell belongs to.
pub proof fn lemma_fragment_of(d: Doc, p: int, n: int) -> (i: int)
    requires
        d.wf(),
        0 <= n <= d.n(),
        0 <= p < d.len_before(n),
    ensures
        0 <= i < n,
        d.len_before(i) <= p < d.len_before(i + 1),
        p < d.len_before(i) + d.pieces[i].len,
        p - d.len_before(i) > 0 || d.cells()[p].head,
    decreases n,
{
    if n == 0 {
        0
    } else if p < d.len_before(n - 1) {
        lemma_fragment_of(d, p, n - 1)
    } else {
        crate::document::lemma_text(d, n - 1);
        lemma_cell(d, n - 1, p - d.len_before(n - 1));
        n - 1
    }
}

} // verus!
