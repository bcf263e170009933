//! What has changed in a buffer since an earlier version.

use vstd::prelude::*;

use crate::builder::{doc_of, pieces_of};
use crate::clock::{Global, Version, includes, joined, same_version};
use crate::document::{
    Cell, Doc, del_before, law_stored_texts, lemma_cell, lemma_cells_len, lemma_len_before_grows,
    lemma_text, lemma_visible_rank, vis_before, visible_rank, visible_text,
};
use crate::edit::Edit;
use crate::edit_laws::lemma_visible_part;
use crate::fragment::{Fragment, FragmentTextSummary, having_seen, insertion_version, piece_summary};
use crate::point::{Point, point_sum};
use crate::rope::{Rope, lemma_point_sum, point_at};
use crate::undo_map::{UndoLog, UndoMap};
use crate::weave::{cell_shown_at, lemma_visible_rank_grows};

verus! {

/// A document, and the version it is compared with.
pub ghost struct Comparison {
    pub cells: Seq<Cell>,
    pub since: Version,
    pub log: UndoLog,
}

/// A run of the old text, and the run of the new text in its place.
pub ghost struct Span {
    pub old: (int, int),
    pub new: (int, int),
}

/// Every operation that touched the cell.
pub open spec fn cell_version(c: Cell) -> Version {
    joined(having_seen(insertion_version(c.timestamp), c.deletions), c.max_undos)
}

impl Comparison {
    /// The cell was touched by an operation that the earlier version had not
    /// seen.
    pub open spec fn touched(self, i: int) -> bool {
        !includes(self.since, cell_version(self.cells[i]))
    }

    /// The cell is shown now and was not then.
    pub open spec fn appeared(self, i: int) -> bool {
        &&& self.touched(i)
        &&& self.cells[i].visible
        &&& !cell_shown_at(self.cells[i], self.since, self.log)
    }

    /// The cell was shown then and is not now.
    pub open spec fn vanished(self, i: int) -> bool {
        &&& self.touched(i)
        &&& !self.cells[i].visible
        &&& cell_shown_at(self.cells[i], self.since, self.log)
    }

    /// The text of the earlier version, as far as the first `i` cells go.
    pub open spec fn old_text(self, i: int) -> Seq<u8>
        decreases i,
    {
        if i <= 0 {
            Seq::empty()
        } else if self.vanished(i - 1) || (self.cells[i - 1].visible && !self.appeared(i - 1)) {
            self.old_text(i - 1).push(self.cells[i - 1].byte)
        } else {
            self.old_text(i - 1)
        }
    }

    /// What has changed, as far as the first `i` cells go. Changes with
    /// nothing between them are one.
    pub open spec fn spans(self, i: int) -> Seq<Span>
        decreases i,
    {
        if i <= 0 {
            Seq::empty()
        } else {
            let spans = self.spans(i - 1);
            let old = self.old_text(i - 1).len() as int;
            let new = visible_rank(self.cells, i - 1);
            if self.appeared(i - 1) {
                grown(spans, old, new, 0, 1)
            } else if self.vanished(i - 1) {
                grown(spans, old, new, 1, 0)
            } else {
                spans
            }
        }
    }

    pub open spec fn len(self) -> int {
        self.cells.len() as int
    }
}

/// The changes with one more at the given places, of the given lengths.
pub open spec fn grown(spans: Seq<Span>, old: int, new: int, gone: int, come: int) -> Seq<Span> {
    if spans.len() > 0 && spans.last().new.1 == new {
        let last = spans.last();
        spans.update(
            spans.len() - 1,
            Span { old: (last.old.0, last.old.1 + gone), new: (last.new.0, last.new.1 + come) },
        )
    } else {
        spans.push(Span { old: (old, old + gone), new: (new, new + come) })
    }
}

/// `edit` describes `span` of a text that was `old`.
pub open spec fn describes(edit: Edit, span: Span, old: Seq<u8>) -> bool {
    &&& edit.old_bytes.start == span.old.0
    &&& edit.old_bytes.end == span.old.1
    &&& edit.new_bytes.start == span.new.0
    &&& edit.new_bytes.end == span.new.1
    &&& edit.old_lines.start == point_at(old, span.old.0)
    &&& edit.old_lines.end == point_at(old, span.old.1)
}

/// The old text only grows.
pub proof fn lemma_old_text(w: Comparison, i: int, j: int)
    requires
        0 <= i <= j <= w.len(),
    ensures
        w.old_text(i).len() <= w.old_text(j).len() <= w.old_text(i).len() + (j - i),
        w.old_text(j).take(w.old_text(i).len() as int) == w.old_text(i),
    decreases j,
{
    if i < j {
        lemma_old_text(w, i, j - 1);
        assert(w.old_text(j).take(w.old_text(i).len() as int) =~= w.old_text(j - 1).take(
            w.old_text(i).len() as int,
        ));
    } else {
        assert(w.old_text(j).take(w.old_text(i).len() as int) =~= w.old_text(i));
    }
}

/// The changes so far lie in what has been passed.
pub proof fn lemma_spans(w: Comparison, i: int)
    requires
        0 <= i <= w.len(),
    ensures
        forall|k: int|
            0 <= k < w.spans(i).len() ==> {
                let span = #[trigger] w.spans(i)[k];
                &&& 0 <= span.old.0 <= span.old.1 <= w.old_text(i).len()
                &&& 0 <= span.new.0 <= span.new.1 <= visible_rank(w.cells, i)
            },
        w.spans(i).len() > 0 && w.spans(i).last().new.1 == visible_rank(w.cells, i)
            ==> w.spans(i).last().old.1 == w.old_text(i).len(),
    decreases i,
{
    if i > 0 {
        lemma_spans(w, i - 1);
        lemma_visible_rank_grows(w.cells, 0, i - 1);
        let before = w.spans(i - 1);
        if before.len() > 0 {
            assert(before[before.len() - 1] == before.last());
        }
        assert forall|k: int| 0 <= k < w.spans(i).len() implies {
            let span = #[trigger] w.spans(i)[k];
            &&& 0 <= span.old.0 <= span.old.1 <= w.old_text(i).len()
            &&& 0 <= span.new.0 <= span.new.1 <= visible_rank(w.cells, i)
        } by {
            if k < before.len() {
                let span = before[k];
                assert(span.old.1 <= w.old_text(i - 1).len());
            }
        }
    }
}

/// A change takes away no more than what is hidden.
pub proof fn lemma_span_hidden(w: Comparison, i: int, k: int)
    requires
        0 <= i <= w.len(),
        0 <= k < w.spans(i).len(),
    ensures
        w.spans(i)[k].old.1 - w.spans(i)[k].old.0 <= i - visible_rank(w.cells, i),
    decreases i,
{
    if i > 0 {
        let before = w.spans(i - 1);
        if k < before.len() {
            lemma_span_hidden(w, i - 1, k);
        }
        lemma_visible_rank_grows(w.cells, 0, i - 1);
    }
}

/// A change starts where the ones before it have moved it.
pub proof fn lemma_span_starts(w: Comparison, i: int, k: int)
    requires
        0 <= i <= w.len(),
        0 <= k < w.spans(i).len(),
    ensures
        w.spans(i)[k].new.0 == w.spans(i)[k].old.0 + growth(w.spans(i), k),
        visible_rank(w.cells, i) == w.old_text(i).len() + growth(
            w.spans(i),
            w.spans(i).len() as int,
        ),
    decreases i,
{
    if i > 0 {
        lemma_span_total(w, i - 1);
        lemma_span_total(w, i);
        let before = w.spans(i - 1);
        let now = w.spans(i);
        if k < before.len() {
            lemma_span_starts(w, i - 1, k);
            lemma_growth_prefix(before, now, k);
        } else {
            lemma_growth_prefix(before, now, k);
        }
    }
}

/// All the changes together make up the difference in length.
pub proof fn lemma_span_total(w: Comparison, i: int)
    requires
        0 <= i <= w.len(),
    ensures
        visible_rank(w.cells, i) == w.old_text(i).len() + growth(
            w.spans(i),
            w.spans(i).len() as int,
        ),
    decreases i,
{
    if i > 0 {
        lemma_span_total(w, i - 1);
        let before = w.spans(i - 1);
        let now = w.spans(i);
        if now.len() == before.len() && before.len() > 0 {
            lemma_growth_prefix(before, now, before.len() - 1);
        } else {
            lemma_growth_prefix(before, now, before.len() as int);
        }
    }
}

/// How many bytes longer the first `k` changes make the text.
pub open spec fn growth(spans: Seq<Span>, k: int) -> int
    decreases k,
{
    if k <= 0 {
        0
    } else {
        growth(spans, k - 1) + (spans[k - 1].new.1 - spans[k - 1].new.0) - (spans[k - 1].old.1
            - spans[k - 1].old.0)
    }
}

proof fn lemma_growth_prefix(a: Seq<Span>, b: Seq<Span>, k: int)
    requires
        0 <= k <= a.len(),
        k <= b.len(),
        forall|j: int| 0 <= j < k ==> a[j] == b[j],
    ensures
        growth(a, k) == growth(b, k),
    decreases k,
{
    if k > 0 {
        lemma_growth_prefix(a, b, k - 1);
    }
}

/// A change that ended before here does not grow any more.
pub proof fn lemma_spans_closed(w: Comparison, p: int, q: int)
    requires
        0 <= p <= q <= w.len(),
        w.spans(p).len() > 0 ==> w.spans(p).last().new.1 < visible_rank(w.cells, p),
    ensures
        w.spans(q).len() >= w.spans(p).len(),
        w.spans(q).take(w.spans(p).len() as int) == w.spans(p),
    decreases q,
{
    if p < q {
        lemma_spans_closed(w, p, q - 1);
        lemma_visible_rank_grows(w.cells, p, q - 1);
        let n = w.spans(p).len() as int;
        let before = w.spans(q - 1);
        if before.len() == n && n > 0 {
            assert(before.take(n)[n - 1] == before.last());
        }
        assert(w.spans(q).take(n) =~= before.take(n));
    } else {
        assert(w.spans(q).take(w.spans(p).len() as int) =~= w.spans(p));
    }
}

/// A run of cells that appeared, or that vanished, is one change.
proof fn lemma_run(w: Comparison, a: int, b: int)
    requires
        0 <= a < b <= w.len(),
        (forall|i: int| a <= i < b ==> #[trigger] w.appeared(i)) || (forall|i: int|
            a <= i < b ==> #[trigger] w.vanished(i)),
    ensures
        w.appeared(a) ==> {
            &&& w.spans(b) == grown(
                w.spans(a),
                w.old_text(a).len() as int,
                visible_rank(w.cells, a),
                0,
                b - a,
            )
            &&& visible_rank(w.cells, b) == visible_rank(w.cells, a) + (b - a)
            &&& w.old_text(b) == w.old_text(a)
        },
        w.vanished(a) ==> {
            &&& w.spans(b) == grown(
                w.spans(a),
                w.old_text(a).len() as int,
                visible_rank(w.cells, a),
                b - a,
                0,
            )
            &&& visible_rank(w.cells, b) == visible_rank(w.cells, a)
            &&& w.old_text(b).len() == w.old_text(a).len() + (b - a)
        },
    decreases b,
{
    assert(w.appeared(a) || w.vanished(a));
    if a < b - 1 {
        lemma_run(w, a, b - 1);
        let old = w.old_text(a).len() as int;
        let new = visible_rank(w.cells, a);
        assert(w.appeared(b - 1) || w.vanished(b - 1));
        if w.appeared(a) {
            assert(w.appeared(b - 1));
            let once = grown(w.spans(a), old, new, 0, b - 1 - a);
            assert(once.last().new.1 == visible_rank(w.cells, b - 1));
            assert(grown(
                once,
                w.old_text(b - 1).len() as int,
                visible_rank(w.cells, b - 1),
                0,
                1,
            ) =~= grown(w.spans(a), old, new, 0, b - a));
        } else {
            assert(w.vanished(b - 1));
            let once = grown(w.spans(a), old, new, b - 1 - a, 0);
            assert(once.last().new.1 == visible_rank(w.cells, b - 1));
            assert(grown(
                once,
                w.old_text(b - 1).len() as int,
                visible_rank(w.cells, b - 1),
                1,
                0,
            ) =~= grown(w.spans(a), old, new, b - a, 0));
        }
    }
}

/// A run of cells that neither appeared nor vanished is no change: what is
/// visible of it is in the old text too.
proof fn lemma_same(w: Comparison, a: int, b: int)
    requires
        0 <= a <= b <= w.len(),
        forall|i: int| a <= i < b ==> !(#[trigger] w.appeared(i)) && !w.vanished(i),
    ensures
        w.spans(b) == w.spans(a),
        w.old_text(b) == w.old_text(a) + visible_text(w.cells).subrange(
            visible_rank(w.cells, a),
            visible_rank(w.cells, b),
        ),
    decreases b,
{
    lemma_visible_part(w.cells, a, b);
    if a < b {
        lemma_same(w, a, b - 1);
        lemma_visible_part(w.cells, a, b - 1);
        lemma_visible_part(w.cells, b - 1, b);
        assert(!w.appeared(b - 1));
        assert(!w.vanished(b - 1));
        let x = visible_rank(w.cells, a);
        let y = visible_rank(w.cells, b - 1);
        let z = visible_rank(w.cells, b);
        let text = visible_text(w.cells);
        assert(text.subrange(x, z) =~= text.subrange(x, y) + text.subrange(y, z));
        let one = w.cells.subrange(b - 1, b);
        assert(one.drop_last() =~= Seq::<Cell>::empty());
        assert(one.last() == w.cells[b - 1]);
        if w.cells[b - 1].visible {
            assert(visible_text(one) =~= seq![w.cells[b - 1].byte]);
        } else {
            assert(visible_text(one) =~= Seq::<u8>::empty());
        }
        assert(w.old_text(b) =~= w.old_text(a) + text.subrange(x, z));
    } else {
        assert(w.old_text(b) =~= w.old_text(a) + visible_text(w.cells).subrange(
            visible_rank(w.cells, a),
            visible_rank(w.cells, b),
        ));
    }
}

/// The same text takes a point just as far in one text as in another.
proof fn lemma_moved_point(a: Seq<u8>, i: int, j: int, b: Seq<u8>, k: int)
    requires
        0 <= i <= j <= a.len(),
        0 <= k,
        k + (j - i) <= b.len(),
        a.subrange(i, j) == b.subrange(k, k + (j - i)),
    ensures
        point_sum(point_at(b, k), point_at(a.subrange(i, j), j - i)) == point_at(b, k + (j - i)),
        point_sum(point_at(a, i), point_at(a.subrange(i, j), j - i)) == point_at(a, j),
{
    lemma_point_sum(a, i, j);
    lemma_point_sum(b, k, k + (j - i));
}

/// Goes through the changes since an earlier version.
pub struct Edits<'a> {
    visible_text: &'a Rope,
    deleted_text: &'a Rope,
    fragments: &'a Vec<Fragment>,
    undos: &'a UndoMap,
    since: Global,
    same: bool,
    index: usize,
    start: FragmentTextSummary,
    old_offset: usize,
    new_offset: usize,
    old_point: Point,
    new_point: Point,
    yielded: Ghost<int>,
}

impl<'a> Edits<'a> {
    spec fn doc(&self) -> Doc {
        doc_of(self.fragments@, self.visible_text@, self.deleted_text@)
    }

    /// What is compared.
    pub closed spec fn comparison(&self) -> Comparison {
        Comparison { cells: self.doc().cells(), since: self.since@, log: self.undos@ }
    }

    /// The text of the earlier version.
    pub open spec fn old_bytes(&self) -> Seq<u8> {
        self.comparison().old_text(self.comparison().len())
    }

    /// All the changes; none if nothing has been seen since.
    pub closed spec fn all(&self) -> Seq<Span> {
        if self.same {
            Seq::empty()
        } else {
            self.comparison().spans(self.comparison().len())
        }
    }

    /// How many of the changes have been handed out.
    pub closed spec fn count(&self) -> int {
        self.yielded@
    }

    spec fn at(&self) -> int {
        self.doc().len_before(self.index as int)
    }

    spec fn placed(&self) -> bool {
        let w = self.comparison();
        &&& self.doc().wf()
        &&& self.index <= self.doc().n()
        &&& self.start.visible == vis_before(self.doc().pieces, self.index as int)
        &&& self.start.deleted == del_before(self.doc().pieces, self.index as int)
        &&& self.new_offset <= self.start.visible
        &&& self.new_point == point_at(self.visible_text@, self.new_offset as int)
        &&& self.old_offset + (self.start.visible - self.new_offset) == w.old_text(self.at()).len()
        &&& self.old_point == point_at(self.old_bytes(), self.old_offset as int)
        &&& self.visible_text@.subrange(self.new_offset as int, self.start.visible as int)
            == self.old_bytes().subrange(
            self.old_offset as int,
            self.old_offset + (self.start.visible - self.new_offset),
        )
    }

    pub closed spec fn wf(&self) -> bool {
        let w = self.comparison();
        &&& self.placed()
        &&& 0 <= self.yielded@
        &&& !self.same ==> self.yielded@ == w.spans(self.at()).len()
        &&& self.same ==> self.yielded@ == 0
        &&& self.yielded@ > 0 && self.index < self.doc().n() ==> w.spans(self.at()).last().new.1
            < self.start.visible
    }

    /// Starts to go through the changes since the version `since`; there are
    /// none if that is the current version.
    pub fn new(
        fragments: &'a Vec<Fragment>,
        visible_text: &'a Rope,
        deleted_text: &'a Rope,
        undos: &'a UndoMap,
        version: &Global,
        since: Global,
    ) -> (edits: Edits<'a>)
        requires
            doc_of(fragments@, visible_text@, deleted_text@).wf(),
        ensures
            edits.wf(),
            edits.comparison() == (Comparison {
                cells: doc_of(fragments@, visible_text@, deleted_text@).cells(),
                since: since@,
                log: undos@,
            }),
            edits.count() == 0,
            edits.all() == edits_of(edits.comparison(), version@),
    {
        let same = since.same_as(version);
        let edits = Edits {
            visible_text,
            deleted_text,
            fragments,
            undos,
            since,
            same,
            index: 0,
            start: FragmentTextSummary::zero(),
            old_offset: 0,
            new_offset: 0,
            old_point: Point::zero(),
            new_point: Point::zero(),
            yielded: Ghost(0),
        };
        proof {
            assert(edits.visible_text@.subrange(0, 0) =~= edits.old_bytes().subrange(0, 0));
        }
        edits
    }

    /// The kind of the fragment at the cursor.
    proof fn lemma_fragment(&self)
        requires
            self.placed(),
            self.index < self.doc().n(),
        ensures
            ({
                let w = self.comparison();
                let d = self.doc();
                let p = d.pieces[self.index as int];
                let next = d.len_before(self.index + 1);
                &&& next == self.at() + p.len
                &&& p.len > 0
                &&& 0 <= self.at() < next <= w.len()
                &&& w.len() <= usize::MAX
                &&& visible_rank(w.cells, self.at()) == self.start.visible
                &&& forall|i: int|
                    #![trigger w.cells[i]]
                    self.at() <= i < next ==> {
                        &&& w.cells[i].visible == p.visible
                        &&& cell_version(w.cells[i]) == piece_summary(p).max_version
                        &&& cell_shown_at(w.cells[i], w.since, w.log)
                            == crate::fragment::shown_at(p.timestamp, p.deletions, w.since, w.log)
                    }
                &&& visible_text(w.cells) == self.visible_text@
                &&& vis_before(d.pieces, self.index + 1) == self.start.visible + if p.visible {
                    p.len as int
                } else {
                    0
                }
                &&& del_before(d.pieces, self.index + 1) == self.start.deleted + if p.visible {
                    0
                } else {
                    p.len as int
                }
                &&& vis_before(d.pieces, self.index + 1) <= d.visible.len() <= usize::MAX
                &&& del_before(d.pieces, self.index + 1) <= d.deleted.len() <= usize::MAX
                &&& visible_rank(w.cells, next) == vis_before(d.pieces, self.index + 1)
            }),
    {
        let d = self.doc();
        let i = self.index as int;
        let w = self.comparison();
        lemma_cells_len(d, d.n());
        lemma_text(d, i);
        lemma_len_before_grows(d, 0, i);
        lemma_len_before_grows(d, i + 1, d.n());
        lemma_visible_rank(d, i, 0);
        if i + 1 < d.n() {
            lemma_visible_rank(d, i + 1, 0);
        } else {
            lemma_visible_rank(d, d.n(), 0);
        }
        assert(d.fragment_ok(i));
        law_stored_texts(d);
        assert forall|j: int|
            #![trigger w.cells[j]]
            self.at() <= j < d.len_before(i + 1) implies {
            &&& w.cells[j].visible == d.pieces[i].visible
            &&& cell_version(w.cells[j]) == piece_summary(d.pieces[i]).max_version
            &&& cell_shown_at(w.cells[j], w.since, w.log) == crate::fragment::shown_at(
                d.pieces[i].timestamp,
                d.pieces[i].deletions,
                w.since,
                w.log,
            )
        } by {
            lemma_cell(d, i, j - self.at());
        }
    }

    /// The bytes of a deleted fragment at the cursor, in the deleted text and
    /// in the old text.
    proof fn lemma_vanished_bytes(&self, j: int)
        requires
            self.placed(),
            self.index < self.doc().n(),
            !self.doc().pieces[self.index as int].visible,
            self.at() <= j <= self.doc().len_before(self.index + 1),
            forall|i: int|
                self.at() <= i < self.doc().len_before(self.index + 1)
                    ==> #[trigger] self.comparison().vanished(i),
        ensures
            self.comparison().old_text(j) == self.comparison().old_text(self.at())
                + self.deleted_text@.subrange(
                self.start.deleted as int,
                self.start.deleted + (j - self.at()),
            ),
        decreases j,
    {
        self.lemma_fragment();
        let w = self.comparison();
        let d = self.doc();
        let from = self.start.deleted as int;
        if self.at() < j {
            self.lemma_vanished_bytes(j - 1);
            assert(w.vanished(j - 1));
            lemma_cell(d, self.index as int, j - 1 - self.at());
            assert(d.text(self.index as int)[j - 1 - self.at()] == self.deleted_text@[from + (j - 1
                - self.at())]);
            assert(self.deleted_text@.subrange(from, from + (j - self.at()))
                =~= self.deleted_text@.subrange(from, from + (j - 1 - self.at())).push(
                self.deleted_text@[from + (j - 1 - self.at())],
            ));
            assert(w.old_text(j) =~= w.old_text(self.at()) + self.deleted_text@.subrange(
                from,
                from + (j - self.at()),
            ));
        } else {
            assert(w.old_text(j) =~= w.old_text(self.at()) + self.deleted_text@.subrange(
                from,
                from,
            ));
        }
    }

    /// Moves past a fragment that did not change.
    fn pass(&mut self)
        requires
            old(self).placed(),
            old(self).index < old(self).doc().n(),
            forall|i: int|
                old(self).at() <= i < old(self).doc().len_before(old(self).index + 1)
                    ==> !(#[trigger] old(self).comparison().appeared(i)) && !old(
                    self,
                ).comparison().vanished(i),
        ensures
            final(self).placed(),
            final(self).doc() == old(self).doc(),
            final(self).comparison() == old(self).comparison(),
            final(self).same == old(self).same,
            final(self).yielded == old(self).yielded,
            final(self).index == old(self).index + 1,
            final(self).new_offset == old(self).new_offset,
            final(self).start.visible >= old(self).start.visible,
            final(self).comparison().spans(final(self).at()) == old(self).comparison().spans(
                old(self).at(),
            ),
    {
        let ghost w = self.comparison();
        let ghost a = self.at();
        let ghost b = self.doc().len_before(self.index + 1);
        let ghost old_text = self.old_bytes();
        let ghost from = self.start.visible as int;
        proof {
            self.lemma_fragment();
            lemma_same(w, a, b);
            lemma_old_text(w, b, w.len());
            lemma_old_text(w, a, b);
        }
        let len = self.fragments[self.index].len;
        assert(self.index < self.fragments.len());
        if self.fragments[self.index].visible {
            self.start.visible = self.start.visible + len;
        } else {
            self.start.deleted = self.start.deleted + len;
        }
        self.index = self.index + 1;
        proof {
            let x = self.new_offset as int;
            let y = self.old_offset as int;
            let to = self.start.visible as int;
            let vis = self.visible_text@;
            assert(self.at() == b);
            let n = from - x;
            assert(w.old_text(b) == old_text.take(w.old_text(b).len() as int));
            assert(vis.subrange(x, to) =~= vis.subrange(x, from) + vis.subrange(from, to));
            assert(old_text.subrange(y, y + (to - x)) =~= old_text.subrange(y, y + n)
                + old_text.subrange(y + n, y + (to - x)));
            assert(old_text.subrange(y + n, y + (to - x)) =~= vis.subrange(from, to)) by {
                assert(w.old_text(a).len() == y + n);
                assert(w.old_text(b).skip(y + n) =~= vis.subrange(from, to));
                assert(old_text.subrange(y + n, y + (to - x)) =~= w.old_text(b).skip(y + n));
            }
        }
    }

    /// Brings the offsets up to the fragment at the cursor.
    fn catch_up(&mut self)
        requires
            old(self).placed(),
            old(self).index < old(self).doc().n(),
        ensures
            final(self).placed(),
            final(self).doc() == old(self).doc(),
            final(self).comparison() == old(self).comparison(),
            final(self).same == old(self).same,
            final(self).yielded == old(self).yielded,
            final(self).index == old(self).index,
            final(self).start == old(self).start,
            final(self).new_offset == final(self).start.visible,
            final(self).old_offset == final(self).comparison().old_text(final(self).at()).len(),
            final(self).old_offset <= usize::MAX,
    {
        let ghost w = self.comparison();
        proof {
            self.lemma_fragment();
            lemma_old_text(w, 0, self.at());
            lemma_old_text(w, 0, w.len());
            lemma_old_text(w, self.at(), w.len());
            lemma_moved_point(
                self.visible_text@,
                self.new_offset as int,
                self.start.visible as int,
                self.old_bytes(),
                self.old_offset as int,
            );
        }
        let bytes = self.start.visible - self.new_offset;
        let lines = self.visible_text.lines_between(self.new_offset, self.start.visible);
        let point = self.new_point.plus(lines);
        self.old_offset = self.old_offset + bytes;
        self.old_point = self.old_point.plus(lines);
        self.new_offset = self.start.visible;
        self.new_point = point;
        proof {
            assert(self.visible_text@.subrange(self.new_offset as int, self.new_offset as int)
                =~= self.old_bytes().subrange(self.old_offset as int, self.old_offset as int));
        }
    }

    /// Moves past a fragment that appeared.
    fn pass_appeared(&mut self)
        requires
            old(self).placed(),
            old(self).index < old(self).doc().n(),
            old(self).new_offset == old(self).start.visible,
            old(self).doc().pieces[old(self).index as int].visible,
            forall|i: int|
                old(self).at() <= i < old(self).doc().len_before(old(self).index + 1)
                    ==> #[trigger] old(self).comparison().appeared(i),
        ensures
            final(self).placed(),
            final(self).doc() == old(self).doc(),
            final(self).comparison() == old(self).comparison(),
            final(self).same == old(self).same,
            final(self).yielded == old(self).yielded,
            final(self).index == old(self).index + 1,
            final(self).start.visible == final(self).new_offset,
            final(self).start.visible == old(self).start.visible + old(
                self,
            ).doc().pieces[old(self).index as int].len,
            final(self).comparison().spans(final(self).at()) == grown(
                old(self).comparison().spans(old(self).at()),
                old(self).old_offset as int,
                old(self).new_offset as int,
                0,
                old(self).doc().pieces[old(self).index as int].len as int,
            ),
    {
        let ghost w = self.comparison();
        let ghost a = self.at();
        let ghost b = self.doc().len_before(self.index + 1);
        proof {
            self.lemma_fragment();
            assert(w.appeared(a));
            lemma_run(w, a, b);
        }
        let len = self.fragments[self.index].len;
        assert(self.index < self.fragments.len());
        self.start.visible = self.start.visible + len;
        self.new_offset = self.start.visible;
        self.new_point = self.visible_text.to_point(self.new_offset);
        self.index = self.index + 1;
        proof {
            assert(self.at() == b);
            assert(self.visible_text@.subrange(self.new_offset as int, self.new_offset as int)
                =~= self.old_bytes().subrange(self.old_offset as int, self.old_offset as int));
        }
    }

    /// Moves past a fragment that vanished.
    fn pass_vanished(&mut self)
        requires
            old(self).placed(),
            old(self).index < old(self).doc().n(),
            old(self).new_offset == old(self).start.visible,
            !old(self).doc().pieces[old(self).index as int].visible,
            forall|i: int|
                old(self).at() <= i < old(self).doc().len_before(old(self).index + 1)
                    ==> #[trigger] old(self).comparison().vanished(i),
        ensures
            final(self).placed(),
            final(self).doc() == old(self).doc(),
            final(self).comparison() == old(self).comparison(),
            final(self).same == old(self).same,
            final(self).yielded == old(self).yielded,
            final(self).index == old(self).index + 1,
            final(self).start.visible == final(self).new_offset,
            final(self).start.visible == old(self).start.visible,
            final(self).old_offset == old(self).old_offset + old(
                self,
            ).doc().pieces[old(self).index as int].len,
            final(self).comparison().spans(final(self).at()) == grown(
                old(self).comparison().spans(old(self).at()),
                old(self).old_offset as int,
                old(self).new_offset as int,
                old(self).doc().pieces[old(self).index as int].len as int,
                0,
            ),
    {
        let ghost w = self.comparison();
        let ghost a = self.at();
        let ghost b = self.doc().len_before(self.index + 1);
        let len = self.fragments[self.index].len;
        assert(self.index < self.fragments.len());
        proof {
            self.lemma_fragment();
            assert(w.vanished(a));
            lemma_run(w, a, b);
            self.lemma_vanished_bytes(b);
            lemma_old_text(w, b, w.len());
            lemma_old_text(w, 0, w.len());
            let from = self.start.deleted as int;
            let k = self.old_offset as int;
            assert(self.old_bytes().subrange(k, k + len) =~= w.old_text(b).skip(k));
            assert(w.old_text(b).skip(k) =~= self.deleted_text@.subrange(from, from + len));
            lemma_moved_point(self.deleted_text@, from, from + len, self.old_bytes(), k);
        }
        let deleted_start = self.start.deleted;
        let fragment_lines = self.deleted_text.lines_between(deleted_start, deleted_start + len);
        self.start.deleted = deleted_start + len;
        self.old_offset = self.old_offset + len;
        self.old_point = self.old_point.plus(fragment_lines);
        self.index = self.index + 1;
        proof {
            assert(self.at() == b);
            assert(self.visible_text@.subrange(self.new_offset as int, self.new_offset as int)
                =~= self.old_bytes().subrange(self.old_offset as int, self.old_offset as int));
        }
    }

    /// The next change; none after the last.
    pub fn next(&mut self) -> (edit: Option<Edit>)
        requires
            old(self).wf(),
        ensures
            final(self).wf(),
            final(self).comparison() == old(self).comparison(),
            final(self).all() == old(self).all(),
            match edit {
                Some(edit) => {
                    &&& old(self).count() < old(self).all().len()
                    &&& final(self).count() == old(self).count() + 1
                    &&& describes(edit, old(self).all()[old(self).count()], old(self).old_bytes())
                },
                None => {
                    &&& final(self).count() == old(self).count()
                    &&& old(self).count() == old(self).all().len()
                },
            },
    {
        if self.same {
            return None;
        }
        let ghost w = self.comparison();
        let ghost k = self.yielded@;
        let ghost d = self.doc();
        let ghost all = self.all();
        let mut change: Option<Edit> = None;
        while self.index < self.fragments.len()
            invariant
                self.placed(),
                !self.same,
                self.comparison() == w,
                self.doc() == d,
                d.pieces == pieces_of(self.fragments@),
                self.yielded@ == k,
                0 <= k,
                match change {
                    Some(edit) => w.spans(self.at()).len() == k + 1 && describes(
                        edit,
                        w.spans(self.at())[k],
                        self.old_bytes(),
                    ),
                    None => {
                        &&& w.spans(self.at()).len() == k
                        &&& k > 0 && self.index < self.doc().n() ==> w.spans(
                            self.at(),
                        ).last().new.1 < self.start.visible
                    },
                },
            ensures
                self.placed(),
                change is Some && self.index < self.doc().n() ==> w.spans(self.at()).last().new.1
                    < self.start.visible,
                change is None ==> self.index == self.doc().n(),
            decreases self.fragments@.len() - self.index,
        {
            proof {
                self.lemma_fragment();
                lemma_spans(w, self.at());
            }
            let fragment = &self.fragments[self.index];
            let touched = fragment.summary().max_version.changed_since(&self.since);
            let was_visible = fragment.was_visible(&self.since, self.undos);
            let visible = fragment.visible;
            let len = fragment.len;
            assert(fragment@ == d.pieces[self.index as int]);
            let ghost before = w.spans(self.at());
            proof {
                let next = d.len_before(self.index + 1);
                assert forall|i: int| self.at() <= i < next implies #[trigger] w.appeared(i) == (
                touched && visible && !was_visible) && w.vanished(i) == (touched && !visible
                    && was_visible) by {
                    let _ = w.cells[i];
                }
            }
            if touched && visible && !was_visible {
                self.catch_up();
                match change {
                    Some(mut edit) => {
                        if edit.new_bytes.end != self.new_offset {
                            change = Some(edit);
                            break;
                        }
                        edit.new_bytes.end = edit.new_bytes.end + len;
                        change = Some(edit);
                    },
                    None => {
                        change = Some(
                            Edit {
                                old_bytes: self.old_offset..self.old_offset,
                                new_bytes: self.new_offset..self.new_offset + len,
                                old_lines: self.old_point..self.old_point,
                            },
                        );
                    },
                }
                let ghost from = (self.old_offset as int, self.new_offset as int);
                self.pass_appeared();
                proof {
                    let now = w.spans(self.at());
                    assert(now == grown(before, from.0, from.1, 0, len as int));
                    assert(now.len() == k + 1);
                    assert(now[k] == now.last());
                }
            } else if touched && !visible && was_visible {
                self.catch_up();
                let old_offset = self.old_offset;
                let old_point = self.old_point;
                let new_offset = self.new_offset;
                match change {
                    Some(mut edit) => {
                        if edit.new_bytes.end != self.new_offset {
                            change = Some(edit);
                            break;
                        }
                        self.pass_vanished();
                        edit.old_bytes.end = self.old_offset;
                        edit.old_lines.end = self.old_point;
                        change = Some(edit);
                    },
                    None => {
                        self.pass_vanished();
                        change = Some(
                            Edit {
                                old_bytes: old_offset..self.old_offset,
                                new_bytes: new_offset..new_offset,
                                old_lines: old_point..self.old_point,
                            },
                        );
                    },
                }
                proof {
                    let now = w.spans(self.at());
                    assert(now == grown(
                        before,
                        old_offset as int,
                        new_offset as int,
                        len as int,
                        0,
                    ));
                    assert(now.len() == k + 1);
                    assert(now[k] == now.last());
                    if before.len() == k + 1 {
                        assert(before[k] == before.last());
                    }
                }
            } else {
                self.pass();
            }
        }
        proof {
            lemma_cells_len(d, d.n());
            lemma_len_before_grows(d, 0, self.index as int);
            lemma_len_before_grows(d, self.index as int, d.n());
            if self.index < d.n() {
                self.lemma_fragment();
                lemma_spans_closed(w, self.at(), w.len());
            }
            if change is Some {
                self.yielded@ = k + 1;
                if self.index < d.n() {
                    assert(all.take(k + 1)[k] == all[k]);
                }
            }
        }
        change
    }
}

/// The changes since a version; none if it is the current version.
pub open spec fn edits_of(w: Comparison, version: Version) -> Seq<Span> {
    if same_version(w.since, version) {
        Seq::empty()
    } else {
        w.spans(w.len())
    }
}

} // verus!
