//! Applying an edit that was made at an earlier version of the document, as
//! another replica sends it.

use std::ops::Range;
use vstd::prelude::*;
use vstd::utf8::*;

use crate::builder::doc_of;
use crate::clock::{Global, Version, after};
use crate::document::{Cell, seen_rank};
use crate::fragment::{Fragment, InsertionTimestamp, lamport_of};
use crate::local::lemma_fragment_end_bounds;
use crate::rope::{Bias, Rope};
use crate::splice::{Splicer, Weave};
use crate::undo_map::{UndoLog, UndoMap};
use crate::weave::{
    cuttable, edited, fragment_end, goes_on, landing_at, landing_end, lemma_landing,
    lemma_remote_plan, lemma_seek, lemma_seen_rank_grows, lemma_skip_on, lemma_skip_stops, passable,
    remote_ok, remote_plan, seek, skip_newer,
};

verus! {

/// The ranges as pairs of numbers.
pub open spec fn pairs(ranges: Seq<Range<usize>>) -> Seq<(int, int)> {
    ranges.map_values(|r: Range<usize>| (r.start as int, r.end as int))
}

/// The bytes of a text that may be absent.
pub open spec fn text_bytes(text: Option<&str>) -> Seq<u8> {
    match text {
        Some(text) => encode_utf8(text@),
        None => Seq::empty(),
    }
}

/// `w` is the edit with the given ranges, made at version `v`.
spec fn is_remote(
    w: Weave,
    cells: Seq<Cell>,
    log: UndoLog,
    v: Version,
    ranges: Seq<(int, int)>,
) -> bool {
    &&& w.plan == remote_plan(cells, log, v, lamport_of(w.timestamp), ranges)
    &&& remote_ok(cells, log, v, lamport_of(w.timestamp), ranges, w.text)
}

/// What is known while range `k` is being looked for: everything up to here
/// had fewer cells before it than the range.
spec fn on_the_way(
    splicer: &Splicer,
    w: Weave,
    log: UndoLog,
    ranges: Seq<(int, int)>,
    k: int,
) -> bool {
    let p = seek(splicer.doc().cells(), splicer.version(), ranges[k].0);
    &&& 0 <= k < ranges.len()
    &&& splicer.weaves(w, k)
    &&& is_remote(w, splicer.doc().cells(), log, splicer.version(), ranges)
    &&& k > 0 ==> w.plan.ends[k - 1] <= splicer.at()
    &&& splicer.at() < p
}

proof fn lemma_on_the_way(
    splicer: &Splicer,
    w: Weave,
    log: UndoLog,
    ranges: Seq<(int, int)>,
    k: int,
)
    requires
        on_the_way(splicer, w, log, ranges, k),
    ensures
        ({
            let cells = splicer.doc().cells();
            let v = splicer.version();
            let p = seek(cells, v, ranges[k].0);
            &&& 0 <= p <= cells.len()
            &&& p <= w.plan.at[k]
            &&& w.plan.at.len() == ranges.len()
            &&& w.in_gap(k, p)
            &&& w.in_gap(k, splicer.at())
            &&& w.plan.at[k] == landing_at(cells, v, lamport_of(w.timestamp), ranges[k].0)
            &&& ranges[k].0 <= seen_rank(cells, v, cells.len() as int)
            &&& 0 <= ranges[k].0
            &&& seen_rank(cells, v, p) == ranges[k].0
            &&& forall|i: int| 0 <= i < p ==> #[trigger] seen_rank(cells, v, i) < ranges[k].0
            &&& forall|i: int| p <= i ==> #[trigger] seen_rank(cells, v, i) >= ranges[k].0
        }),
{
    let cells = splicer.doc().cells();
    let v = splicer.version();
    let lamport = lamport_of(w.timestamp);
    lemma_remote_plan(cells, log, v, lamport, ranges, w.text);
    assert(0 <= ranges[k].0 <= ranges[k].1);
    lemma_landing(cells, v, lamport, ranges[k]);
    lemma_seek(cells, v, ranges[k].0);
}

/// Goes on to the fragment in which, or after which, range `k` starts.
fn approach<'a>(
    splicer: &mut Splicer<'a>,
    start: usize,
    Ghost(w): Ghost<Weave>,
    Ghost(log): Ghost<UndoLog>,
    Ghost(ranges): Ghost<Seq<(int, int)>>,
    Ghost(k): Ghost<int>,
)
    requires
        on_the_way(old(splicer), w, log, ranges, k),
        start == ranges[k].0,
    ensures
        on_the_way(final(splicer), w, log, ranges, k),
        final(splicer).along(old(splicer)),
        seen_rank(
            final(splicer).doc().cells(),
            final(splicer).version(),
            final(splicer).end(),
        ) >= start,
{
    let ghost cells = splicer.doc().cells();
    let ghost v = splicer.version();
    let ghost p = seek(cells, v, ranges[k].0);
    proof {
        lemma_on_the_way(splicer, w, log, ranges, k);
        splicer.lemma_here();
    }
    let fragment_end = splicer.end_offset();
    if fragment_end < start {
        assert(splicer.end() < p);
        splicer.close(Ghost(w), Ghost(k));
        proof {
            splicer.lemma_room(w, k);
        }
        let ghost before = *splicer;
        splicer.slice_offset(start, Bias::Left);
        proof {
            splicer.lemma_here();
            assert(splicer.at() < p);
            splicer.lemma_weaves_whole(&before, w, k);
            assert(splicer.index() < splicer.doc().n());
        }
    }
}

/// Passes insertions that are concurrent with the edit and newer than it.
fn skip_concurrent<'a>(
    splicer: &mut Splicer<'a>,
    timestamp: InsertionTimestamp,
    Ghost(w): Ghost<Weave>,
    Ghost(k): Ghost<int>,
)
    requires
        old(splicer).weaves(w, k),
        old(splicer).taken == 0,
        k < w.plan.at.len(),
        w.in_gap(k, old(splicer).at()),
        timestamp == w.timestamp,
        w.plan.at[k] == skip_newer(
            old(splicer).doc().cells(),
            lamport_of(w.timestamp),
            old(splicer).at(),
        ),
    ensures
        final(splicer).weaves(w, k),
        final(splicer).along(old(splicer)),
        final(splicer).at() == w.plan.at[k],
{
    let ghost cells = splicer.doc().cells();
    let ghost lamport = lamport_of(w.timestamp);
    loop
        invariant
            splicer.weaves(w, k),
            splicer.doc().cells() == cells,
            splicer.along(old(splicer)),
            splicer.taken == 0,
            timestamp == w.timestamp,
            lamport == lamport_of(w.timestamp),
            k < w.plan.at.len(),
            w.in_gap(k, splicer.at()),
            w.plan.at[k] == skip_newer(cells, lamport, splicer.at()),
        ensures
            splicer.at() == w.plan.at[k],
        decreases splicer.doc().n() - splicer.index(),
    {
        proof {
            splicer.lemma_here();
        }
        match splicer.item() {
            Some(fragment) => {
                proof {
                    splicer.lemma_fragment_cell(splicer.at());
                }
                if !fragment.timestamp.lamport().is_after(&timestamp.lamport()) {
                    break;
                }
                let len = fragment.len;
                proof {
                    assert forall|i: int| splicer.at() <= i < splicer.end() implies after(
                        lamport_of((#[trigger] cells[i]).timestamp),
                        lamport,
                    ) by {
                        splicer.lemma_fragment_cell(i);
                    }
                    lemma_skip_on(cells, lamport, splicer.at(), splicer.end());
                    lemma_skip_stops(cells, lamport, splicer.end());
                }
                splicer.keep(len, Ghost(w), Ghost(k));
                splicer.next();
            },
            None => {
                break;
            },
        }
    }
}

/// Goes on to the place where the text of range `k` is inserted.
fn reach<'a>(
    splicer: &mut Splicer<'a>,
    start: usize,
    timestamp: InsertionTimestamp,
    Ghost(w): Ghost<Weave>,
    Ghost(log): Ghost<UndoLog>,
    Ghost(ranges): Ghost<Seq<(int, int)>>,
    Ghost(k): Ghost<int>,
)
    requires
        on_the_way(old(splicer), w, log, ranges, k),
        timestamp == w.timestamp,
        start == ranges[k].0,
    ensures
        final(splicer).weaves(w, k),
        final(splicer).along(old(splicer)),
        final(splicer).at() == w.plan.at[k],
{
    let ghost cells = splicer.doc().cells();
    let ghost v = splicer.version();
    let ghost p = seek(cells, v, ranges[k].0);
    // If the current fragment ends before this range, then go on to the first
    // one that does not.
    approach(splicer, start, Ghost(w), Ghost(log), Ghost(ranges), Ghost(k));
    proof {
        lemma_on_the_way(splicer, w, log, ranges, k);
        splicer.lemma_here();
        splicer.lemma_seen_here(splicer.at());
        splicer.lemma_seen_here(splicer.end());
    }

    // If this is the end of a fragment that the version had seen, then go on to
    // the next one.
    let fragment_start = splicer.offset();
    let fragment_end = splicer.end_offset();
    if fragment_end == start {
        let len = splicer.cursor.fragments[splicer.cursor.index].len;
        proof {
            splicer.lemma_seen_here(splicer.end() - 1);
            assert(splicer.end() == p);
        }
        splicer.keep(len - splicer.taken, Ghost(w), Ghost(k));
        splicer.next();
        // Pass over insertions that are concurrent with this edit and newer.
        assert(splicer.at() == p);
        proof {
            splicer.lemma_here();
            if p < cells.len() {
                splicer.lemma_fragment_cell(p);
            }
        }
        skip_concurrent(splicer, timestamp, Ghost(w), Ghost(k));
    } else {
        // Preserve the part of this fragment that precedes the range.
        proof {
            splicer.lemma_seen_here(p);
            let q = splicer.at() + (start - fragment_start);
            splicer.lemma_seen_here(q);
            splicer.lemma_seen_here(q - 1);
            assert(q == p);
            splicer.lemma_fragment_cell(p);
            assert(goes_on(cells, v, p));
            assert(w.plan.at[k] == p);
            assert(w.plan.at.contains(p));
        }
        splicer.keep(start - fragment_start, Ghost(w), Ghost(k));
    }
}

/// Where a range starts no later than the place at which the one before it
/// ended, its text goes there, or, at the end of a fragment, after the newer text
/// that follows.
proof fn lemma_rejoin(
    splicer: &Splicer,
    w: Weave,
    log: UndoLog,
    ranges: Seq<(int, int)>,
    k: int,
)
    requires
        0 <= k < ranges.len(),
        splicer.weaves(w, k),
        is_remote(w, splicer.doc().cells(), log, splicer.version(), ranges),
        seen_rank(splicer.doc().cells(), splicer.version(), splicer.at()) >= ranges[k].0,
        k == 0 ==> splicer.at() == 0 && splicer.taken == 0,
        k > 0 ==> splicer.at() == w.plan.ends[k - 1],
    ensures
        w.plan.at[k] == if 0 < splicer.taken && splicer.at() < splicer.end() {
            splicer.at()
        } else {
            skip_newer(splicer.doc().cells(), lamport_of(w.timestamp), splicer.at())
        },
{
    let cells = splicer.doc().cells();
    let v = splicer.version();
    let lamport = lamport_of(w.timestamp);
    let start = ranges[k].0;
    let p = seek(cells, v, start);
    let q = splicer.at();
    splicer.lemma_here();
    assert(0 <= start <= ranges[k].1);
    lemma_landing(cells, v, lamport, ranges[k]);
    lemma_seek(cells, v, start);
    lemma_skip_stops(cells, lamport, p);
    if q < cells.len() {
        splicer.lemma_head();
    }
    if k > 0 {
        let last = ranges[k - 1];
        assert(0 <= last.0 <= last.1 <= start);
        lemma_landing(cells, v, lamport, last);
        lemma_seek(cells, v, last.0);
        lemma_seek(cells, v, last.1);
        lemma_skip_stops(cells, lamport, seek(cells, v, last.0));
        assert(passable(cells, log, v, lamport, ranges, k - 1));
        if last.0 == last.1 {
            if start > last.0 {
                lemma_fragment_end_bounds(cells, q);
                lemma_seen_rank_grows(cells, v, q, fragment_end(cells, q));
            } else {
                lemma_skip_stops(cells, lamport, q);
            }
        } else {
            assert(q == seek(cells, v, last.1));
            assert(start == last.1);
            assert(q == p);
            if 0 < splicer.taken && q < splicer.end() {
                splicer.lemma_fragment_cell(q);
                splicer.lemma_fragment_cell(q - 1);
                assert(seen_rank(cells, v, q - 1) < last.1);
                assert(goes_on(cells, v, q));
            }
        }
    }
}

/// Where range `k` starts no later than the place that has been reached, goes on
/// to the place where its text is inserted.
fn rejoin<'a>(
    splicer: &mut Splicer<'a>,
    timestamp: InsertionTimestamp,
    Ghost(w): Ghost<Weave>,
    Ghost(log): Ghost<UndoLog>,
    Ghost(ranges): Ghost<Seq<(int, int)>>,
    Ghost(k): Ghost<int>,
)
    requires
        0 <= k < ranges.len(),
        old(splicer).weaves(w, k),
        is_remote(w, old(splicer).doc().cells(), log, old(splicer).version(), ranges),
        timestamp == w.timestamp,
        seen_rank(old(splicer).doc().cells(), old(splicer).version(), old(splicer).at())
            >= ranges[k].0,
        k == 0 ==> old(splicer).at() == 0 && old(splicer).taken == 0,
        k > 0 ==> old(splicer).at() == w.plan.ends[k - 1],
    ensures
        final(splicer).weaves(w, k),
        final(splicer).along(old(splicer)),
        final(splicer).at() == w.plan.at[k],
{
    let ghost cells = splicer.doc().cells();
    let ghost v = splicer.version();
    let ghost lamport = lamport_of(w.timestamp);
    proof {
        splicer.lemma_here();
        lemma_remote_plan(cells, log, v, lamport, ranges, w.text);
        lemma_skip_stops(cells, lamport, splicer.at());
        lemma_rejoin(splicer, w, log, ranges, k);
    }
    let used_up = match splicer.item() {
        Some(fragment) => splicer.taken == fragment.len,
        None => false,
    };
    if used_up {
        splicer.next();
    }
    if splicer.taken == 0 {
        skip_concurrent(splicer, timestamp, Ghost(w), Ghost(k));
    }
}

/// Goes through range `k`, and hides what its version had shown there.
fn hide_range<'a>(
    splicer: &mut Splicer<'a>,
    end: usize,
    timestamp: InsertionTimestamp,
    undo_map: &UndoMap,
    Ghost(w): Ghost<Weave>,
    Ghost(ranges): Ghost<Seq<(int, int)>>,
    Ghost(k): Ghost<int>,
)
    requires
        0 <= k < ranges.len(),
        old(splicer).weaves(w, k + 1),
        is_remote(w, old(splicer).doc().cells(), undo_map@, old(splicer).version(), ranges),
        timestamp == w.timestamp,
        end == ranges[k].1,
        old(splicer).at() == w.plan.at[k],
    ensures
        final(splicer).weaves(w, k + 1),
        final(splicer).along(old(splicer)),
        final(splicer).at() == w.plan.ends[k],
{
    let ghost cells = splicer.doc().cells();
    let ghost v = splicer.version();
    let ghost lamport = lamport_of(w.timestamp);
    proof {
        lemma_remote_plan(cells, undo_map@, v, lamport, ranges, w.text);
        assert(0 <= ranges[k].0 <= ranges[k].1);
        lemma_landing(cells, v, lamport, ranges[k]);
        lemma_seek(cells, v, ranges[k].1);
        splicer.lemma_here();
    }
    let mut fragment_start = splicer.offset();
    while fragment_start < end
        invariant
            0 <= k < ranges.len(),
            splicer.weaves(w, k + 1),
            splicer.along(old(splicer)),
            splicer.doc().cells() == cells,
            splicer.version() == v,
            lamport == lamport_of(w.timestamp),
            is_remote(w, cells, undo_map@, v, ranges),
            timestamp == w.timestamp,
            end == ranges[k].1,
            w.plan.at[k] <= splicer.at() <= w.plan.ends[k] <= cells.len(),
            w.plan.at[k] == landing_at(cells, v, lamport, ranges[k].0),
            w.plan.ends[k] == landing_end(cells, v, lamport, ranges[k]),
            seen_rank(cells, v, w.plan.at[k]) >= ranges[k].0,
            ranges[k].0 <= ranges[k].1 <= seen_rank(cells, v, cells.len() as int),
            fragment_start == seen_rank(cells, v, splicer.at()),
            forall|i: int|
                0 <= i < seek(cells, v, ranges[k].1) ==> #[trigger] seen_rank(cells, v, i)
                    < ranges[k].1,
            forall|i: int|
                seek(cells, v, ranges[k].1) <= i ==> #[trigger] seen_rank(cells, v, i)
                    >= ranges[k].1,
        decreases cells.len() - splicer.at(),
    {
        let ghost from = splicer.at();
        proof {
            splicer.lemma_here();
            lemma_seen_rank_grows(cells, v, w.plan.at[k], from);
            assert(from < seek(cells, v, ranges[k].1));
        }
        if splicer.taken == splicer.cursor.fragments[splicer.cursor.index].len {
            splicer.next();
            proof {
                splicer.lemma_here();
            }
        }
        let fragment = &splicer.cursor.fragments[splicer.cursor.index];
        let fragment_end = splicer.end_offset();
        let observed = fragment.is_observed(splicer.cursor.version);
        let was_visible = fragment.was_visible(splicer.cursor.version, undo_map);
        proof {
            splicer.lemma_here();
            splicer.lemma_seen_here(splicer.at());
            splicer.lemma_seen_here(splicer.end());
        }
        let len = if !observed || fragment_end <= end {
            fragment.len - splicer.taken
        } else {
            end - fragment_start
        };
        proof {
            splicer.lemma_seen_here(from + len);
            splicer.lemma_seen_here(from + len - 1);
            assert(from + len - 1 < seek(cells, v, ranges[k].1));
            assert forall|j: int| from <= j < from + len implies #[trigger] w.plan.hits.contains(j)
                == was_visible by {
                splicer.lemma_fragment_cell(j);
                splicer.lemma_seen_here(j);
                assert(landing_at(cells, v, lamport, ranges[k].0) <= j < landing_end(
                    cells,
                    v,
                    lamport,
                    ranges[k],
                ));
            }
            if from + len < splicer.end() {
                assert(from + len == seek(cells, v, ranges[k].1));
                assert(w.plan.ends.contains(w.plan.ends[k]));
                assert(cuttable(cells, seek(cells, v, ranges[k].1)));
            }
        }
        splicer.cover(len, was_visible, timestamp.local(), Ghost(w), Ghost(k));
        fragment_start = splicer.offset();
    }
    proof {
        if splicer.at() < seek(cells, v, ranges[k].1) {
            assert(seen_rank(cells, v, splicer.at()) < ranges[k].1);
        }
    }
}

/// Applies an edit that was made at `version`: the new text is inserted at the
/// start of each range, and what `version` showed in the ranges is hidden.
pub fn remote_edit(
    fragments: &Vec<Fragment>,
    visible: &Rope,
    deleted: &Rope,
    undo_map: &UndoMap,
    version: &Global,
    ranges: &Vec<Range<usize>>,
    new_text: Option<&str>,
    timestamp: InsertionTimestamp,
) -> (parts: (Vec<Fragment>, Rope, Rope))
    requires
        visible.wf(),
        deleted.wf(),
        doc_of(fragments@, visible@, deleted@).wf(),
        remote_ok(
            doc_of(fragments@, visible@, deleted@).cells(),
            undo_map@,
            version@,
            lamport_of(timestamp),
            pairs(ranges@),
            text_bytes(new_text),
        ),
    ensures
        parts.1.wf(),
        parts.2.wf(),
        doc_of(parts.0@, parts.1@, parts.2@).wf(),
        doc_of(parts.0@, parts.1@, parts.2@).cells() == edited(
            doc_of(fragments@, visible@, deleted@).cells(),
            remote_plan(
                doc_of(fragments@, visible@, deleted@).cells(),
                undo_map@,
                version@,
                lamport_of(timestamp),
                pairs(ranges@),
            ),
            timestamp,
            text_bytes(new_text),
        ),
{
    let ghost d = doc_of(fragments@, visible@, deleted@);
    let ghost cells = d.cells();
    let ghost views = pairs(ranges@);
    let ghost w = Weave {
        plan: remote_plan(cells, undo_map@, version@, lamport_of(timestamp), views),
        timestamp,
        text: text_bytes(new_text),
    };
    let mut splicer = Splicer::new(fragments, visible, deleted, version);
    proof {
        lemma_remote_plan(cells, undo_map@, version@, lamport_of(timestamp), views, w.text);
        splicer.lemma_here();
        assert(w.upto(cells, 0, 0) =~= Seq::<Cell>::empty());
    }
    let mut i: usize = 0;
    while i < ranges.len()
        invariant
            i <= ranges@.len(),
            views == pairs(ranges@),
            splicer.weaves(w, i as int),
            splicer.doc().cells() == cells,
            splicer.version() == version@,
            is_remote(w, cells, undo_map@, version@, views),
            timestamp == w.timestamp,
            w.text == text_bytes(new_text),
            w.plan.ok(cells.len() as int),
            w.plan.at.len() == views.len(),
            i == 0 ==> splicer.at() == 0 && splicer.taken == 0,
            i > 0 ==> splicer.at() == w.plan.ends[i - 1],
        decreases ranges@.len() - i,
    {
        let ghost k = i as int;
        let start = ranges[i].start;
        let end = ranges[i].end;
        proof {
            assert(views[k] == (start as int, end as int));
            assert(0 <= views[k].0 <= views[k].1);
            lemma_seek(cells, version@, views[k].0);
        }
        if splicer.offset() >= start {
            rejoin(
                &mut splicer,
                timestamp,
                Ghost(w),
                Ghost(undo_map@),
                Ghost(views),
                Ghost(k),
            );
        } else {
            reach(
                &mut splicer,
                start,
                timestamp,
                Ghost(w),
                Ghost(undo_map@),
                Ghost(views),
                Ghost(k),
            );
        }
        match new_text {
            Some(text) => {
                splicer.insert(timestamp, text, Ghost(w), Ghost(k));
            },
            None => {
                proof {
                    splicer.lemma_no_text(w, k);
                }
            },
        }
        hide_range(&mut splicer, end, timestamp, undo_map, Ghost(w), Ghost(views), Ghost(k));
        i = i + 1;
    }
    proof {
        splicer.lemma_here();
    }
    splicer.close(Ghost(w), Ghost(ranges@.len() as int));
    splicer.rest(Ghost(w));
    splicer.finish()
}

} // verus!
