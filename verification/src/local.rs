//! Applying an edit of the visible text.

use std::ops::Range;
use vstd::prelude::*;
use vstd::utf8::*;

use crate::builder::doc_of;
use crate::clock::Global;
use crate::document::{Cell, Doc, lemma_cell, lemma_cells_len, lemma_text, visible_rank};
use crate::fragment::{Fragment, InsertionTimestamp};
use crate::remote::{pairs, text_bytes};
use crate::rope::{Bias, Rope};
use crate::splice::{Splicer, Weave};
use crate::weave::{
    cuttable, edited, follows_fragment, fragment_end, in_ranges, lemma_visible_rank_grows, local_at,
    local_end, local_ok, local_plan, visible_at, visible_at_from,
};

verus! {

proof fn lemma_visible_at_from(cells: Seq<Cell>, offset: int, p: int)
    requires
        0 <= p <= cells.len(),
        visible_rank(cells, p) <= offset <= visible_rank(cells, cells.len() as int),
    ensures
        p <= visible_at_from(cells, offset, p) <= cells.len(),
        visible_rank(cells, visible_at_from(cells, offset, p)) == offset,
        visible_at_from(cells, offset, p) < cells.len()
            ==> cells[visible_at_from(cells, offset, p)].visible,
    decreases cells.len() - p,
{
    if p < cells.len() {
        lemma_visible_rank_grows(cells, p + 1, cells.len() as int);
        if !(cells[p].visible && visible_rank(cells, p) >= offset) {
            lemma_visible_at_from(cells, offset, p + 1);
        }
    }
}

/// What `visible_at` finds.
pub proof fn lemma_visible_at(cells: Seq<Cell>, offset: int)
    requires
        0 <= offset <= visible_rank(cells, cells.len() as int),
    ensures
        0 <= visible_at(cells, offset) <= cells.len(),
        visible_rank(cells, visible_at(cells, offset)) == offset,
        visible_at(cells, offset) < cells.len() ==> cells[visible_at(cells, offset)].visible,
{
    lemma_visible_at_from(cells, offset, 0);
}

/// No other place is the one that `visible_at` finds.
pub proof fn lemma_is_visible_at(cells: Seq<Cell>, p: int)
    requires
        0 <= p <= cells.len(),
        p < cells.len() ==> cells[p].visible,
    ensures
        visible_at(cells, visible_rank(cells, p)) == p,
{
    let offset = visible_rank(cells, p);
    lemma_visible_rank_grows(cells, 0, p);
    lemma_visible_rank_grows(cells, p, cells.len() as int);
    lemma_visible_at(cells, offset);
    let r = visible_at(cells, offset);
    if r < p {
        lemma_visible_rank_grows(cells, r + 1, p);
    } else if p < r {
        lemma_visible_rank_grows(cells, p + 1, r);
    }
}

pub proof fn lemma_fragment_end_bounds(cells: Seq<Cell>, p: int)
    requires
        0 <= p < cells.len(),
    ensures
        p < fragment_end(cells, p) <= cells.len(),
        cuttable(cells, fragment_end(cells, p)),
    decreases cells.len() - p,
{
    if !(p + 1 >= cells.len() || cells[p + 1].head) {
        lemma_fragment_end_bounds(cells, p + 1);
    }
}

/// The end of a fragment, going by its cells.
pub proof fn lemma_fragment_end(d: Doc, i: int, t: int)
    requires
        d.wf(),
        0 <= i < d.n(),
        0 <= t < d.pieces[i].len,
    ensures
        fragment_end(d.cells(), d.len_before(i) + t) == d.len_before(i + 1),
    decreases d.pieces[i].len - t,
{
    lemma_text(d, i);
    lemma_cells_len(d, d.n());
    crate::document::lemma_len_before_grows(d, i + 1, d.n());
    if t + 1 < d.pieces[i].len {
        lemma_cell(d, i, t + 1);
        lemma_fragment_end(d, i, t + 1);
    } else if i + 1 < d.n() {
        assert(d.fragment_ok(i + 1));
        lemma_cell(d, i + 1, 0);
    }
}

/// Where one range of visible text starts and ends.
pub proof fn lemma_local_range(cells: Seq<Cell>, ranges: Seq<(int, int)>, text: Seq<u8>, k: int)
    requires
        local_ok(cells, ranges, text),
        0 <= k < ranges.len(),
    ensures
        0 <= local_at(cells, ranges, k) <= local_end(cells, ranges, k) <= cells.len(),
        visible_rank(cells, local_at(cells, ranges, k)) == ranges[k].0,
        visible_rank(cells, local_end(cells, ranges, k)) == ranges[k].1,
        cuttable(cells, local_at(cells, ranges, k)),
    decreases k,
{
    assert(0 <= ranges[k].0 <= ranges[k].1);
    if k > 0 && follows_fragment(cells, ranges, k) {
        lemma_local_range(cells, ranges, text, k - 1);
        lemma_fragment_end_bounds(cells, local_end(cells, ranges, k - 1));
    } else {
        lemma_visible_at(cells, ranges[k].0);
    }
    if ranges[k].0 < ranges[k].1 {
        lemma_visible_at(cells, ranges[k].1 - 1);
        let p = visible_at(cells, ranges[k].1 - 1);
        if local_at(cells, ranges, k) > p {
            lemma_visible_rank_grows(cells, p + 1, local_at(cells, ranges, k));
        }
    }
}

/// The plan of an edit of the visible text is in order, and hides what is
/// visible in the ranges.
pub proof fn lemma_local_plan(cells: Seq<Cell>, ranges: Seq<(int, int)>, text: Seq<u8>)
    requires
        local_ok(cells, ranges, text),
    ensures
        local_plan(cells, ranges).ok(cells.len() as int),
        forall|j: int, k: int|
            0 <= j < k < ranges.len() ==> #[trigger] local_end(cells, ranges, j)
                < #[trigger] local_at(cells, ranges, k),
{
    let plan = local_plan(cells, ranges);
    assert forall|k: int| 0 <= k < ranges.len() implies 0 <= #[trigger] plan.at[k] <= plan.ends[k]
        <= cells.len() by {
        lemma_local_range(cells, ranges, text, k);
    }
    assert forall|j: int, k: int| 0 <= j < k < ranges.len() implies #[trigger] local_end(
        cells,
        ranges,
        j,
    ) < #[trigger] local_at(cells, ranges, k) by {
        lemma_local_range(cells, ranges, text, j);
        lemma_local_range(cells, ranges, text, k);
        assert(ranges[j].1 < ranges[k].0);
        if local_end(cells, ranges, j) >= local_at(cells, ranges, k) {
            lemma_visible_rank_grows(
                cells,
                local_at(cells, ranges, k),
                local_end(cells, ranges, j),
            );
        }
    }
    assert forall|j: int, k: int| 0 <= j < k < plan.at.len() implies #[trigger] plan.ends[j]
        <= #[trigger] plan.at[k] by {
        assert(local_end(cells, ranges, j) < local_at(cells, ranges, k));
    }
    assert forall|i: int| #[trigger] plan.hits.contains(i) implies plan.in_some_range(i) by {
        let x = visible_rank(cells, i);
        let k = choose|k: int| 0 <= k < ranges.len() && (#[trigger] ranges[k]).0 <= x < ranges[k].1;
        lemma_local_hit(cells, ranges, text, k, i);
        assert(plan.at[k] <= i < plan.ends[k]);
    }
}

/// A visible cell lies in a range just if its offset does.
pub proof fn lemma_local_hit(
    cells: Seq<Cell>,
    ranges: Seq<(int, int)>,
    text: Seq<u8>,
    k: int,
    i: int,
)
    requires
        local_ok(cells, ranges, text),
        0 <= k < ranges.len(),
        0 <= i < cells.len(),
        cells[i].visible,
    ensures
        ranges[k].0 <= visible_rank(cells, i) < ranges[k].1 <==> local_at(cells, ranges, k) <= i
            < local_end(cells, ranges, k),
{
    lemma_local_range(cells, ranges, text, k);
    let at = local_at(cells, ranges, k);
    let end = local_end(cells, ranges, k);
    if i < at {
        lemma_visible_rank_grows(cells, i + 1, at);
    } else {
        lemma_visible_rank_grows(cells, at, i);
    }
    if i < end {
        lemma_visible_rank_grows(cells, i + 1, end);
    } else {
        lemma_visible_rank_grows(cells, end, i);
    }
}

/// `w` is the edit of the given ranges of the visible text.
spec fn is_local(w: Weave, cells: Seq<Cell>, ranges: Seq<(int, int)>) -> bool {
    &&& w.plan == local_plan(cells, ranges)
    &&& local_ok(cells, ranges, w.text)
}

/// The fragment at the cursor has been used up, but not left.
spec fn stays(splicer: &Splicer) -> bool {
    splicer.index() < splicer.doc().n() && splicer.at() == splicer.end()
}

/// Goes on to the visible cell at which range `k` starts, taking over whole
/// fragments on the way.
fn slice_to<'a>(
    splicer: &mut Splicer<'a>,
    start: usize,
    Ghost(w): Ghost<Weave>,
    Ghost(k): Ghost<int>,
)
    requires
        0 <= k < w.plan.at.len(),
        old(splicer).weaves(w, k),
        old(splicer).taken == 0,
        start <= visible_rank(
            old(splicer).doc().cells(),
            old(splicer).doc().cells().len() as int,
        ),
        w.plan.at[k] == visible_at(old(splicer).doc().cells(), start as int),
        cuttable(old(splicer).doc().cells(), w.plan.at[k]),
        w.in_gap(k, old(splicer).at()),
    ensures
        final(splicer).weaves(w, k),
        final(splicer).along(old(splicer)),
        final(splicer).at() == w.plan.at[k],
        !stays(final(splicer)),
{
    let ghost cells = splicer.doc().cells();
    let ghost p = w.plan.at[k];
    let ghost before = *splicer;
    proof {
        splicer.lemma_here();
        splicer.lemma_room(w, k);
        lemma_visible_at(cells, start as int);
        lemma_visible_rank_grows(cells, splicer.at(), p);
    }
    splicer.slice_visible(start, Bias::Right);
    proof {
        splicer.lemma_here();
        assert(visible_rank(cells, splicer.at()) <= start);
        if p < splicer.at() {
            lemma_visible_rank_grows(cells, p + 1, splicer.at());
        }
        splicer.lemma_weaves_whole(&before, w, k);
        splicer.lemma_visible_here(splicer.at());
        splicer.lemma_visible_here(splicer.end());
    }
    let fragment_start = splicer.visible_offset();
    proof {
        if splicer.index() < splicer.doc().n() {
            let q = splicer.at() + (start - fragment_start);
            splicer.lemma_visible_here(q);
            splicer.lemma_fragment_cell(q);
            lemma_is_visible_at(cells, q);
            assert(w.plan.at.contains(p));
        }
    }
    if fragment_start < start {
        splicer.keep(start - fragment_start, Ghost(w), Ghost(k));
    }
}

/// Goes on to the place where the text of range `k` is inserted.
fn reach_visible<'a>(
    splicer: &mut Splicer<'a>,
    start: usize,
    Ghost(w): Ghost<Weave>,
    Ghost(ranges): Ghost<Seq<(int, int)>>,
    Ghost(k): Ghost<int>,
)
    requires
        0 < k < ranges.len(),
        old(splicer).weaves(w, k),
        is_local(w, old(splicer).doc().cells(), ranges),
        start == ranges[k].0,
        old(splicer).at() == w.plan.ends[k - 1],
        stays(old(splicer)) == (follows_fragment(old(splicer).doc().cells(), ranges, k - 1)
            && ranges[k - 1].0 == ranges[k - 1].1),
    ensures
        final(splicer).weaves(w, k),
        final(splicer).along(old(splicer)),
        final(splicer).at() == w.plan.at[k],
        stays(final(splicer)) == follows_fragment(final(splicer).doc().cells(), ranges, k),
{
    let ghost cells = splicer.doc().cells();
    let ghost d = splicer.doc();
    let ghost follows = follows_fragment(cells, ranges, k);
    proof {
        lemma_local_plan(cells, ranges, w.text);
        lemma_local_range(cells, ranges, w.text, k);
        lemma_local_range(cells, ranges, w.text, k - 1);
        assert(ranges[k].0 <= ranges[k].1 <= visible_rank(cells, cells.len() as int));
        assert(ranges[k - 1].1 < ranges[k].0);
        assert(local_end(cells, ranges, k - 1) < local_at(cells, ranges, k));
        assert(w.plan.at[k] == local_at(cells, ranges, k));
        splicer.lemma_here();
        splicer.lemma_visible_here(splicer.at());
        splicer.lemma_visible_here(splicer.end());
        if splicer.at() < splicer.end() {
            lemma_fragment_end(d, splicer.index(), splicer.taken as int);
            splicer.lemma_fragment_cell(splicer.at());
        }
    }
    let fragment_start = splicer.visible_offset();
    let fragment_end = splicer.end_visible();
    if fragment_end < start {
        // Go on to the first fragment that extends past the start of this
        // range, reusing any fragments in between.
        proof {
            assert(!follows);
            if w.plan.at[k] < splicer.end() {
                lemma_visible_rank_grows(cells, w.plan.at[k], splicer.end());
            }
        }
        splicer.close(Ghost(w), Ghost(k));
        slice_to(splicer, start, Ghost(w), Ghost(k));
    } else {
        // The range starts in this fragment or right after it.
        proof {
            assert(splicer.at() < splicer.end());
            let q = splicer.at() + (start - fragment_start);
            assert(splicer.at() < q <= splicer.end());
            if q == splicer.end() {
                assert(follows);
            } else {
                assert(!follows);
                splicer.lemma_visible_here(q);
                splicer.lemma_fragment_cell(q);
                lemma_is_visible_at(cells, q);
            }
            assert(q == w.plan.at[k]);
            assert(w.plan.at.contains(q));
        }
        splicer.keep(start - fragment_start, Ghost(w), Ghost(k));
    }
}

/// Goes through range `k`, and hides what is visible there.
fn hide_visible<'a>(
    splicer: &mut Splicer<'a>,
    end: usize,
    timestamp: InsertionTimestamp,
    Ghost(w): Ghost<Weave>,
    Ghost(ranges): Ghost<Seq<(int, int)>>,
    Ghost(k): Ghost<int>,
)
    requires
        0 <= k < ranges.len(),
        old(splicer).weaves(w, k + 1),
        is_local(w, old(splicer).doc().cells(), ranges),
        timestamp == w.timestamp,
        end == ranges[k].1,
        old(splicer).at() == w.plan.at[k],
        stays(old(splicer)) == follows_fragment(old(splicer).doc().cells(), ranges, k),
    ensures
        final(splicer).weaves(w, k + 1),
        final(splicer).along(old(splicer)),
        final(splicer).at() == w.plan.ends[k],
        stays(final(splicer)) == (follows_fragment(final(splicer).doc().cells(), ranges, k)
            && ranges[k].0 == ranges[k].1),
{
    let ghost cells = splicer.doc().cells();
    proof {
        lemma_local_plan(cells, ranges, w.text);
        lemma_local_range(cells, ranges, w.text, k);
        assert(ranges[k].0 <= ranges[k].1 <= visible_rank(cells, cells.len() as int));
        assert(w.plan.at[k] == local_at(cells, ranges, k));
        assert(w.plan.ends[k] == local_end(cells, ranges, k));
        splicer.lemma_here();
    }
    let mut fragment_start = splicer.visible_offset();
    while fragment_start < end
        invariant
            0 <= k < ranges.len(),
            splicer.weaves(w, k + 1),
            splicer.along(old(splicer)),
            splicer.doc().cells() == cells,
            is_local(w, cells, ranges),
            w.plan.ok(cells.len() as int),
            timestamp == w.timestamp,
            end == ranges[k].1,
            w.plan.at[k] <= splicer.at() <= w.plan.ends[k] <= cells.len(),
            w.plan.at[k] == local_at(cells, ranges, k),
            w.plan.ends[k] == local_end(cells, ranges, k),
            visible_rank(cells, w.plan.at[k]) == ranges[k].0,
            visible_rank(cells, w.plan.ends[k]) == ranges[k].1,
            0 <= ranges[k].0 <= ranges[k].1 <= visible_rank(cells, cells.len() as int),
            cuttable(cells, visible_at(cells, ranges[k].1)),
            fragment_start == visible_rank(cells, splicer.at()),
            stays(splicer) ==> follows_fragment(cells, ranges, k) && splicer.at() == w.plan.at[k],
            stays(old(splicer)) == follows_fragment(cells, ranges, k),
            splicer.at() == w.plan.at[k] ==> splicer.index() == old(splicer).index()
                && splicer.taken == old(splicer).taken,
        decreases cells.len() - splicer.at(),
    {
        let ghost from = splicer.at();
        let ghost to = w.plan.ends[k];
        proof {
            splicer.lemma_here();
            assert(from < to);
        }
        if splicer.taken == splicer.cursor.fragments[splicer.cursor.index].len {
            splicer.next();
        }
        let fragment = &splicer.cursor.fragments[splicer.cursor.index];
        let fragment_end = splicer.end_visible();
        let visible = fragment.visible;
        proof {
            splicer.lemma_here();
            splicer.lemma_visible_here(splicer.at());
            splicer.lemma_visible_here(splicer.end());
        }
        let len = if !visible || fragment_end <= end {
            fragment.len - splicer.taken
        } else {
            end - fragment_start
        };
        proof {
            let q = from + len;
            splicer.lemma_visible_here(q);
            splicer.lemma_visible_here(q - 1);
            if to < q {
                lemma_visible_rank_grows(cells, to, q - 1);
                lemma_visible_at(cells, ranges[k].1 - 1);
                splicer.lemma_fragment_cell(to - 1);
                splicer.lemma_visible_here(to - 1);
            }
            assert forall|j: int| from <= j < q implies #[trigger] w.plan.hits.contains(j)
                == visible by {
                splicer.lemma_fragment_cell(j);
                if visible {
                    lemma_local_hit(cells, ranges, w.text, k, j);
                    assert(in_ranges(ranges, visible_rank(cells, j)));
                }
            }
            if q < splicer.end() {
                splicer.lemma_fragment_cell(q);
                lemma_is_visible_at(cells, q);
                if q < to {
                    splicer.lemma_fragment_cell(q);
                    lemma_visible_rank_grows(cells, q + 1, to);
                }
                assert(w.plan.ends.contains(to));
            }
        }
        splicer.cover(len, visible, timestamp.local(), Ghost(w), Ghost(k));
        if splicer.taken == splicer.cursor.fragments[splicer.cursor.index].len {
            splicer.next();
        }
        proof {
            splicer.lemma_here();
        }
        fragment_start = splicer.visible_offset();
    }
    proof {
        if ranges[k].0 < ranges[k].1 {
            lemma_visible_at(cells, ranges[k].1 - 1);
            if splicer.at() < w.plan.ends[k] {
                lemma_visible_rank_grows(cells, splicer.at(), w.plan.ends[k] - 1);
            }
        }
    }
}

/// Applies an edit of the visible text: the new text is inserted at the start
/// of each range, and what is visible in the ranges is hidden. Also returns
/// the ranges as counted in all the text there is.
pub fn local_edit(
    fragments: &Vec<Fragment>,
    visible: &Rope,
    deleted: &Rope,
    version: &Global,
    ranges: &Vec<Range<usize>>,
    new_text: Option<&str>,
    timestamp: InsertionTimestamp,
) -> (parts: ((Vec<Fragment>, Rope, Rope), Vec<Range<usize>>))
    requires
        visible.wf(),
        deleted.wf(),
        doc_of(fragments@, visible@, deleted@).wf(),
        local_ok(
            doc_of(fragments@, visible@, deleted@).cells(),
            pairs(ranges@),
            text_bytes(new_text),
        ),
    ensures
        parts.0.1.wf(),
        parts.0.2.wf(),
        doc_of(parts.0.0@, parts.0.1@, parts.0.2@).wf(),
        doc_of(parts.0.0@, parts.0.1@, parts.0.2@).cells() == edited(
            doc_of(fragments@, visible@, deleted@).cells(),
            local_plan(doc_of(fragments@, visible@, deleted@).cells(), pairs(ranges@)),
            timestamp,
            text_bytes(new_text),
        ),
        pairs(parts.1@) == full_ranges(
            doc_of(fragments@, visible@, deleted@).cells(),
            pairs(ranges@),
        ),
{
    let ghost d = doc_of(fragments@, visible@, deleted@);
    let ghost cells = d.cells();
    let ghost views = pairs(ranges@);
    let ghost w = Weave { plan: local_plan(cells, views), timestamp, text: text_bytes(new_text) };
    let mut full: Vec<Range<usize>> = Vec::new();
    let mut splicer = Splicer::new(fragments, visible, deleted, version);
    proof {
        lemma_local_plan(cells, views, w.text);
        splicer.lemma_here();
        assert(w.upto(cells, 0, 0) =~= Seq::<Cell>::empty());
    }
    let mut i: usize = 0;
    while i < ranges.len()
        invariant
            i <= ranges@.len(),
            views == pairs(ranges@),
            splicer.weaves(w, i as int),
            splicer.doc().cells() == cells,
            is_local(w, cells, views),
            timestamp == w.timestamp,
            w.text == text_bytes(new_text),
            w.plan.ok(cells.len() as int),
            w.plan.at.len() == views.len(),
            i == 0 ==> splicer.at() == 0 && splicer.taken == 0,
            i > 0 ==> splicer.at() == w.plan.ends[i - 1],
            i > 0 ==> stays(&splicer) == (follows_fragment(cells, views, i - 1) && views[i - 1].0
                == views[i - 1].1),
            pairs(full@) =~= full_ranges(cells, views).take(i as int),
        decreases ranges@.len() - i,
    {
        let ghost k = i as int;
        let start = ranges[i].start;
        let end = ranges[i].end;
        proof {
            assert(views[k] == (start as int, end as int));
            lemma_local_range(cells, views, w.text, k);
            assert(w.plan.at[k] == local_at(cells, views, k));
            assert(0 <= w.plan.at[k]);
            assert(views[k].0 <= views[k].1 <= visible_rank(cells, cells.len() as int));
            splicer.lemma_here();
        }
        if i == 0 {
            slice_to(&mut splicer, start, Ghost(w), Ghost(k));
        } else {
            reach_visible(&mut splicer, start, Ghost(w), Ghost(views), Ghost(k));
        }
        let full_start = splicer.position();
        let ghost before = splicer;
        match new_text {
            Some(text) => {
                splicer.insert(timestamp, text, Ghost(w), Ghost(k));
            },
            None => {
                proof {
                    splicer.lemma_no_text(w, k);
                }
            },
        }
        assert(stays(&splicer) == stays(&before));
        hide_visible(&mut splicer, end, timestamp, Ghost(w), Ghost(views), Ghost(k));
        let full_end = splicer.position();
        let range = full_start..full_end;
        proof {
            assert(pairs(full@.push(range)) =~= pairs(full@).push(
                (full_start as int, full_end as int),
            ));
            assert(full_ranges(cells, views).take(k + 1) =~= full_ranges(cells, views).take(k).push(
                full_ranges(cells, views)[k],
            ));
        }
        full.push(range);
        i = i + 1;
    }
    proof {
        splicer.lemma_here();
        assert(full_ranges(cells, views).take(views.len() as int) =~= full_ranges(cells, views));
    }
    splicer.close(Ghost(w), Ghost(ranges@.len() as int));
    splicer.rest(Ghost(w));
    (splicer.finish(), full)
}

/// The ranges of visible text, as counted in all the text there is.
pub open spec fn full_ranges(cells: Seq<Cell>, ranges: Seq<(int, int)>) -> Seq<(int, int)> {
    Seq::new(
        ranges.len(),
        |k: int| (local_at(cells, ranges, k), local_end(cells, ranges, k)),
    )
}

} // verus!
