//! Undoing and redoing edits: going through the text that they touched, and
//! showing or hiding it by what is undone now.

use std::ops::Range;
use vstd::prelude::*;

use crate::builder::{cell_bytes, doc_of, passes};
use crate::clock::{Global, Local, Version, observing};
use crate::document::{
    Cell, Doc, lemma_cell, lemma_cells_len, lemma_len_before_grows, lemma_seen_rank, run_cells,
    seen_before, seen_rank,
};
use crate::fragment::{Fragment, having_seen, local_of, observe_all, shown};
use crate::local::{lemma_fragment_end, lemma_fragment_end_bounds};
use crate::local_map::LocalMap;
use crate::remote::pairs;
use crate::rope::{Bias, Rope};
use crate::splice::Splicer;
use crate::undo_map::{UndoLog, UndoMap};
use crate::weave::{cell_shown_at, fragment_end};

verus! {

/// How much text that `v` had seen there is up to the end of the fragment that
/// starts at `p`.
pub open spec fn end_rank(cells: Seq<Cell>, v: Version, p: int) -> int {
    if p < cells.len() {
        seen_rank(cells, v, fragment_end(cells, p))
    } else {
        seen_rank(cells, v, p)
    }
}

/// The first fragment from `p` on that ends after `target` in the text that
/// `v` had seen.
pub open spec fn pass_right(cells: Seq<Cell>, v: Version, target: int, p: int) -> int
    decreases cells.len() - p,
{
    if 0 <= p < cells.len() && end_rank(cells, v, p) <= target {
        proof {
            lemma_fragment_end_bounds(cells, p);
        }
        pass_right(cells, v, target, fragment_end(cells, p))
    } else {
        p
    }
}

/// The fragment that is looked at after the one that starts at `p` and ends at
/// `end`: what `v` had not seen is passed over.
pub open spec fn undo_next(cells: Seq<Cell>, v: Version, p: int, end: int) -> int {
    let q = fragment_end(cells, p);
    if end_rank(cells, v, q) == end {
        pass_right(cells, v, end, q)
    } else {
        q
    }
}

/// Where looking through a range that ends at `limit` stops, if it starts at
/// the fragment at `p`.
pub open spec fn undo_stop(cells: Seq<Cell>, v: Version, limit: int, p: int, end: int) -> int
    decreases cells.len() - p,
{
    if 0 <= p < cells.len() && end <= limit {
        proof {
            lemma_undo_next(cells, v, p, end);
        }
        let q = undo_next(cells, v, p, end);
        undo_stop(cells, v, limit, q, end_rank(cells, v, q))
    } else {
        p
    }
}

/// The cells that are looked at on the way.
pub open spec fn undo_hits(cells: Seq<Cell>, v: Version, limit: int, p: int, end: int) -> Set<int>
    decreases cells.len() - p,
{
    if 0 <= p < cells.len() && end <= limit {
        proof {
            lemma_undo_next(cells, v, p, end);
        }
        let q = undo_next(cells, v, p, end);
        Set::new(|i: int| p <= i < fragment_end(cells, p)).union(
            undo_hits(cells, v, limit, q, end_rank(cells, v, q)),
        )
    } else {
        Set::empty()
    }
}

/// Where looking through `range` starts, if the range before it stopped at
/// `p`.
pub open spec fn undo_start(cells: Seq<Cell>, v: Version, range: (int, int), p: int) -> int {
    if end_rank(cells, v, p) < range.0 {
        pass_right(cells, v, range.0, p)
    } else {
        p
    }
}

/// The cells that are looked at for the ranges from `k` on, if the range
/// before them stopped at `p`.
pub open spec fn undo_from(
    cells: Seq<Cell>,
    v: Version,
    ranges: Seq<(int, int)>,
    k: int,
    p: int,
) -> Set<int>
    decreases ranges.len() - k,
{
    if 0 <= k < ranges.len() {
        let start = undo_start(cells, v, ranges[k], p);
        let end = end_rank(cells, v, p);
        undo_hits(cells, v, ranges[k].1, start, end).union(
            undo_from(cells, v, ranges, k + 1, undo_stop(cells, v, ranges[k].1, start, end)),
        )
    } else {
        Set::empty()
    }
}

/// The cells that are looked at when edits are undone that touched the given
/// ranges of the text that `v` had seen.
pub open spec fn undo_touched(cells: Seq<Cell>, v: Version, ranges: Seq<(int, int)>) -> Set<int> {
    undo_from(cells, v, ranges, 0, pass_right(cells, v, ranges[0].0, 0))
}

/// What an undo operation means.
#[verifier::ext_equal]
pub ghost struct Undo {
    pub id: Local,
    pub counts: Map<Local, u32>,
    pub ranges: Seq<(int, int)>,
    pub version: Version,
}

/// A cell that an undo operation looked at: if it was shown before the edits,
/// or is one of theirs, then it is shown or hidden by what is undone now.
pub open spec fn reviewed_cell(c: Cell, log: UndoLog, undo: Undo) -> Cell {
    if cell_shown_at(c, undo.version, log) || undo.counts.contains_key(local_of(c.timestamp)) {
        Cell {
            visible: shown(c.timestamp, c.deletions, log),
            max_undos: observing(c.max_undos, undo.id),
            ..c
        }
    } else {
        c
    }
}

/// The document after an undo operation; the operation is in the log already.
pub open spec fn undo_applied(cells: Seq<Cell>, log: UndoLog, undo: Undo) -> Seq<Cell> {
    let v = having_seen(undo.version, undo.counts.dom());
    let touched = undo_touched(cells, v, undo.ranges);
    Seq::new(
        cells.len(),
        |i: int|
            if touched.contains(i) {
                reviewed_cell(cells[i], log, undo)
            } else {
                cells[i]
            },
    )
}

pub proof fn lemma_pass_right(cells: Seq<Cell>, v: Version, target: int, p: int)
    requires
        0 <= p <= cells.len(),
    ensures
        p <= pass_right(cells, v, target, p) <= cells.len(),
    decreases cells.len() - p,
{
    if p < cells.len() && end_rank(cells, v, p) <= target {
        lemma_fragment_end_bounds(cells, p);
        lemma_pass_right(cells, v, target, fragment_end(cells, p));
    }
}

pub proof fn lemma_undo_next(cells: Seq<Cell>, v: Version, p: int, end: int)
    requires
        0 <= p < cells.len(),
    ensures
        p < fragment_end(cells, p) <= undo_next(cells, v, p, end) <= cells.len(),
{
    lemma_fragment_end_bounds(cells, p);
    lemma_pass_right(cells, v, end, fragment_end(cells, p));
}

/// What is looked at lies between the start and the stop.
pub proof fn lemma_undo_hits(cells: Seq<Cell>, v: Version, limit: int, p: int, end: int)
    requires
        0 <= p <= cells.len(),
    ensures
        p <= undo_stop(cells, v, limit, p, end) <= cells.len(),
        forall|i: int| #[trigger]
            undo_hits(cells, v, limit, p, end).contains(i) ==> p <= i < undo_stop(
                cells,
                v,
                limit,
                p,
                end,
            ),
    decreases cells.len() - p,
{
    if p < cells.len() && end <= limit {
        lemma_undo_next(cells, v, p, end);
        let q = undo_next(cells, v, p, end);
        lemma_undo_hits(cells, v, limit, q, end_rank(cells, v, q));
        assert forall|i: int| #[trigger]
            undo_hits(cells, v, limit, p, end).contains(i) implies p <= i < undo_stop(
            cells,
            v,
            limit,
            p,
            end,
        ) by {
            let first = Set::new(|i: int| p <= i < fragment_end(cells, p));
            let others = undo_hits(cells, v, limit, q, end_rank(cells, v, q));
            assert(undo_hits(cells, v, limit, p, end) == first.union(others));
            assert(first.contains(i) || others.contains(i));
        }
    }
}

proof fn lemma_undo_from(cells: Seq<Cell>, v: Version, ranges: Seq<(int, int)>, k: int, p: int)
    requires
        0 <= k <= ranges.len(),
        0 <= p <= cells.len(),
    ensures
        forall|i: int| #[trigger]
            undo_from(cells, v, ranges, k, p).contains(i) ==> p <= i < cells.len(),
        k < ranges.len() ==> p <= undo_start(cells, v, ranges[k], p) <= cells.len(),
    decreases ranges.len() - k,
{
    if k < ranges.len() {
        lemma_pass_right(cells, v, ranges[k].0, p);
        let start = undo_start(cells, v, ranges[k], p);
        let end = end_rank(cells, v, p);
        lemma_undo_hits(cells, v, ranges[k].1, start, end);
        lemma_undo_from(
            cells,
            v,
            ranges,
            k + 1,
            undo_stop(cells, v, ranges[k].1, start, end),
        );
        assert forall|i: int| #[trigger]
            undo_from(cells, v, ranges, k, p).contains(i) implies p <= i < cells.len() by {
            let a = undo_hits(cells, v, ranges[k].1, start, end);
            let b = undo_from(
                cells,
                v,
                ranges,
                k + 1,
                undo_stop(cells, v, ranges[k].1, start, end),
            );
            assert(undo_from(cells, v, ranges, k, p) == a.union(b));
            assert(a.contains(i) || b.contains(i));
        }
    }
}

/// `pass_right`, going by fragments.
proof fn lemma_pass_right_fragments(d: Doc, v: Version, target: int, a: int, b: int)
    requires
        d.wf(),
        0 <= a <= b <= d.n(),
        forall|j: int| a < j <= b ==> #[trigger] seen_before(d.pieces, v, j) <= target,
        b < d.n() ==> seen_before(d.pieces, v, b + 1) > target,
    ensures
        pass_right(d.cells(), v, target, d.len_before(a)) == d.len_before(b),
    decreases b - a,
{
    lemma_cells_len(d, d.n());
    lemma_len_before_grows(d, 0, a);
    lemma_len_before_grows(d, a, d.n());
    if a < d.n() {
        assert(d.fragment_ok(a));
        lemma_cell(d, a, 0);
        lemma_fragment_end(d, a, 0);
        lemma_seen_rank(d, v, a + 1, 0);
    }
    if a < b {
        assert(seen_before(d.pieces, v, a + 1) <= target);
        lemma_pass_right_fragments(d, v, target, a + 1, b);
    }
}

/// The cells made so far are those of the undo.
spec fn reviews(splicer: &Splicer, log: UndoLog, undo: Undo) -> bool {
    &&& splicer.wf()
    &&& splicer.taken == 0
    &&& splicer.version() == having_seen(undo.version, undo.counts.dom())
    &&& splicer.out() == undo_applied(splicer.doc().cells(), log, undo).subrange(0, splicer.at())
}

/// Fragments that are not looked at are taken over as they are.
proof fn lemma_reviews_whole(
    splicer: &Splicer,
    before: &Splicer,
    log: UndoLog,
    undo: Undo,
)
    requires
        reviews(before, log, undo),
        splicer.wf(),
        splicer.taken == 0,
        splicer.doc() == before.doc(),
        splicer.version() == before.version(),
        before.index() <= splicer.index(),
        splicer.out() == before.out() + before.doc().cells().subrange(before.at(), splicer.at()),
        forall|i: int|
            before.at() <= i < splicer.at() ==> !#[trigger] undo_touched(
                before.doc().cells(),
                before.version(),
                undo.ranges,
            ).contains(i),
    ensures
        reviews(splicer, log, undo),
{
    let cells = before.doc().cells();
    let all = undo_applied(cells, log, undo);
    splicer.lemma_here();
    before.lemma_here();
    lemma_len_before_grows(before.doc(), before.index(), splicer.index());
    assert(all.subrange(before.at(), splicer.at()) =~= cells.subrange(before.at(), splicer.at()));
    assert(splicer.out() =~= all.subrange(0, splicer.at()));
}

/// Looks at the fragment at the cursor, and takes it over.
fn review<'a>(
    splicer: &mut Splicer<'a>,
    undo_map: &UndoMap,
    id: Local,
    counts: &LocalMap<u32>,
    version: &Global,
    Ghost(undo): Ghost<Undo>,
)
    requires
        reviews(old(splicer), undo_map@, undo),
        old(splicer).index() < old(splicer).doc().n(),
        id == undo.id,
        counts@ == undo.counts,
        version@ == undo.version,
        forall|i: int|
            old(splicer).at() <= i < old(splicer).end() ==> #[trigger] undo_touched(
                old(splicer).doc().cells(),
                old(splicer).version(),
                undo.ranges,
            ).contains(i),
    ensures
        reviews(final(splicer), undo_map@, undo),
        final(splicer).along(old(splicer)),
        final(splicer).index() == old(splicer).index() + 1,
        final(splicer).at() == old(splicer).end(),
{
    let ghost cells = splicer.doc().cells();
    let ghost all = undo_applied(cells, undo_map@, undo);
    let ghost from = splicer.at();
    let ghost to = splicer.end();
    proof {
        splicer.lemma_here();
    }
    let mut fragment = splicer.cursor.fragments[splicer.cursor.index].clone();
    if fragment.was_visible(version, undo_map) || counts.contains_key(fragment.timestamp.local()) {
        fragment.visible = fragment.is_visible(undo_map);
        fragment.max_undos.observe(id);
    }
    let ghost piece = fragment@;
    proof {
        let made = run_cells(piece, cell_bytes(cells, from, to));
        assert forall|i: int| 0 <= i < to - from implies made[i] == #[trigger] all.subrange(
            from,
            to,
        )[i] by {
            splicer.lemma_fragment_cell(from + i);
            assert(undo_touched(cells, splicer.version(), undo.ranges).contains(from + i));
        }
        assert(made =~= all.subrange(from, to));
        assert(all.subrange(0, from) + all.subrange(from, to) =~= all.subrange(0, to));
    }
    splicer.take(fragment);
    splicer.next();
}

/// Takes over the fragments up to the first that ends after `target`.
fn pass<'a>(
    splicer: &mut Splicer<'a>,
    target: usize,
    Ghost(log): Ghost<UndoLog>,
    Ghost(undo): Ghost<Undo>,
)
    requires
        reviews(old(splicer), log, undo),
        forall|i: int|
            old(splicer).at() <= i < pass_right(
                old(splicer).doc().cells(),
                old(splicer).version(),
                target as int,
                old(splicer).at(),
            ) ==> !#[trigger] undo_touched(
                old(splicer).doc().cells(),
                old(splicer).version(),
                undo.ranges,
            ).contains(i),
    ensures
        reviews(final(splicer), log, undo),
        final(splicer).along(old(splicer)),
        final(splicer).at() == pass_right(
            old(splicer).doc().cells(),
            old(splicer).version(),
            target as int,
            old(splicer).at(),
        ),
        old(splicer).index() <= final(splicer).index(),
{
    let ghost before = *splicer;
    proof {
        splicer.lemma_here();
        assert(splicer.out().len() == splicer.at());
    }
    splicer.slice_offset(target, Bias::Right);
    proof {
        let d = splicer.doc();
        let v = splicer.version();
        let a = before.index();
        let b = splicer.index();
        if b < d.n() {
            lemma_seen_rank(d, v, b + 1, 0);
        }
        assert forall|j: int| a < j <= b implies #[trigger] seen_before(d.pieces, v, j)
            <= target by {
            assert(passes(seen_before(d.pieces, v, j), target as int, Bias::Right));
        }
        lemma_pass_right_fragments(d, v, target as int, a, b);
        lemma_reviews_whole(splicer, &before, log, undo);
    }
}

/// The end of the fragment at the cursor, going by its cells.
proof fn lemma_end_rank(splicer: &Splicer)
    requires
        splicer.wf(),
        splicer.taken == 0,
    ensures
        end_rank(splicer.doc().cells(), splicer.version(), splicer.at()) == seen_rank(
            splicer.doc().cells(),
            splicer.version(),
            splicer.end(),
        ),
        splicer.index() < splicer.doc().n() ==> fragment_end(splicer.doc().cells(), splicer.at())
            == splicer.end(),
{
    splicer.lemma_here();
    if splicer.index() < splicer.doc().n() {
        lemma_fragment_end(splicer.doc(), splicer.index(), 0);
    }
}

/// Shows or hides the text that the edits with the given counts touched, by
/// what is undone now.
pub fn undo_edits(
    fragments: &Vec<Fragment>,
    visible: &Rope,
    deleted: &Rope,
    undo_map: &UndoMap,
    id: Local,
    counts: &LocalMap<u32>,
    ranges: &Vec<Range<usize>>,
    version: &Global,
) -> (parts: (Vec<Fragment>, Rope, Rope))
    requires
        visible.wf(),
        deleted.wf(),
        doc_of(fragments@, visible@, deleted@).wf(),
        ranges@.len() > 0,
    ensures
        parts.1.wf(),
        parts.2.wf(),
        doc_of(parts.0@, parts.1@, parts.2@).wf(),
        doc_of(parts.0@, parts.1@, parts.2@).cells() == undo_applied(
            doc_of(fragments@, visible@, deleted@).cells(),
            undo_map@,
            Undo { id, counts: counts@, ranges: pairs(ranges@), version: version@ },
        ),
{
    let ghost undo = Undo { id, counts: counts@, ranges: pairs(ranges@), version: version@ };
    let ghost d = doc_of(fragments@, visible@, deleted@);
    let ghost cells = d.cells();
    let ghost log = undo_map@;
    let mut cx = version.clone();
    let keys = counts.keys();
    observe_all(&mut cx, keys);
    assert(keys@.to_set() =~= counts@.dom());
    let ghost v = cx@;
    let ghost hits = undo_touched(cells, v, undo.ranges);

    let mut splicer = Splicer::new(fragments, visible, deleted, &cx);
    proof {
        assert(undo_applied(cells, log, undo).subrange(0, 0) =~= Seq::<Cell>::empty());
        assert(undo.ranges[0].0 == ranges@[0].start);
        lemma_pass_right(cells, v, undo.ranges[0].0, 0);
        lemma_undo_from(cells, v, undo.ranges, 0, pass_right(cells, v, undo.ranges[0].0, 0));
    }
    pass(&mut splicer, ranges[0].start, Ghost(log), Ghost(undo));

    let mut k: usize = 0;
    while k < ranges.len()
        invariant
            k <= ranges@.len(),
            reviews(&splicer, log, undo),
            splicer.doc() == d,
            splicer.version() == v,
            cells == d.cells(),
            log == undo_map@,
            hits == undo_touched(cells, v, undo.ranges),
            undo.ranges == pairs(ranges@),
            id == undo.id,
            counts@ == undo.counts,
            version@ == undo.version,
            forall|i: int|
                splicer.at() <= i ==> (#[trigger] hits.contains(i) <==> undo_from(
                    cells,
                    v,
                    undo.ranges,
                    k as int,
                    splicer.at(),
                ).contains(i)),
        decreases ranges@.len() - k,
    {
        let range_start = ranges[k].start;
        let range_end = ranges[k].end;
        let mut end_offset = splicer.end_offset();
        let ghost stop;
        proof {
            assert(undo.ranges[k as int] == (range_start as int, range_end as int));
            splicer.lemma_here();
            lemma_end_rank(&splicer);
            lemma_undo_from(cells, v, undo.ranges, k as int, splicer.at());
            let start = undo_start(cells, v, undo.ranges[k as int], splicer.at());
            stop = undo_stop(cells, v, range_end as int, start, end_offset as int);
            lemma_undo_hits(cells, v, range_end as int, start, end_offset as int);
            lemma_undo_from(cells, v, undo.ranges, k + 1, stop);
            let a = undo_hits(cells, v, range_end as int, start, end_offset as int);
            let b = undo_from(cells, v, undo.ranges, k + 1, stop);
            assert(undo_from(cells, v, undo.ranges, k as int, splicer.at()) == a.union(b));
            assert forall|i: int| splicer.at() <= i implies (#[trigger] hits.contains(i)
                <==> a.contains(i) || b.contains(i)) by {}
        }
        if end_offset < range_start {
            pass(&mut splicer, range_start, Ghost(log), Ghost(undo));
        }
        while end_offset <= range_end
            invariant
                reviews(&splicer, log, undo),
                splicer.doc() == d,
                splicer.version() == v,
                cells == d.cells(),
                log == undo_map@,
                hits == undo_touched(cells, v, undo.ranges),
                id == undo.id,
                counts@ == undo.counts,
                version@ == undo.version,
                0 <= k < undo.ranges.len(),
                splicer.at() <= stop <= cells.len(),
                stop == undo_stop(cells, v, range_end as int, splicer.at(), end_offset as int),
                forall|i: int|
                    splicer.at() <= i ==> (#[trigger] hits.contains(i) <==> undo_hits(
                        cells,
                        v,
                        range_end as int,
                        splicer.at(),
                        end_offset as int,
                    ).contains(i) || undo_from(cells, v, undo.ranges, k + 1, stop).contains(i)),
                forall|i: int| #[trigger]
                    undo_from(cells, v, undo.ranges, k + 1, stop).contains(i) ==> stop <= i,
            ensures
                splicer.at() == stop,
            decreases cells.len() - splicer.at(),
        {
            proof {
                splicer.lemma_here();
                lemma_end_rank(&splicer);
            }
            if splicer.item().is_none() {
                break;
            }
            let ghost p = splicer.at();
            let ghost end = end_offset as int;
            let ghost q = undo_next(cells, v, p, end);
            proof {
                lemma_undo_next(cells, v, p, end);
                lemma_undo_hits(cells, v, range_end as int, q, end_rank(cells, v, q));
                let first = Set::new(|i: int| p <= i < fragment_end(cells, p));
                let others = undo_hits(cells, v, range_end as int, q, end_rank(cells, v, q));
                assert(undo_hits(cells, v, range_end as int, p, end) == first.union(others));
                assert forall|i: int| p <= i implies (#[trigger] hits.contains(i) <==> (p <= i
                    < fragment_end(cells, p)) || others.contains(i) || undo_from(
                    cells,
                    v,
                    undo.ranges,
                    k + 1,
                    stop,
                ).contains(i)) by {
                    assert(first.contains(i) <==> p <= i < fragment_end(cells, p));
                }
            }
            review(&mut splicer, undo_map, id, counts, version, Ghost(undo));
            proof {
                splicer.lemma_here();
                lemma_end_rank(&splicer);
            }
            if end_offset == splicer.end_offset() {
                pass(&mut splicer, end_offset, Ghost(log), Ghost(undo));
            }
            proof {
                lemma_end_rank(&splicer);
            }
            end_offset = splicer.end_offset();
        }
        k = k + 1;
    }
    proof {
        splicer.lemma_here();
        assert(splicer.out().len() == splicer.at());
    }
    let ghost before = splicer;
    splicer.suffix();
    proof {
        lemma_reviews_whole(&splicer, &before, log, undo);
        let all = undo_applied(cells, log, undo);
        assert(all.subrange(0, cells.len() as int) =~= all);
    }
    splicer.finish()
}

} // verus!
