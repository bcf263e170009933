//! Going through a document once from start to end, taking over what is there
//! and weaving in what is new.

use vstd::prelude::*;
use vstd::utf8::*;

use crate::builder::{DocumentBuilder, FragmentCursor, cell_bytes, doc_of, passes};
use crate::clock::{Global, Local, Version, observes};
use crate::document::{
    Cell, Doc, lemma_cell, lemma_cells_len, lemma_cells_slice, lemma_len_before_grows,
    lemma_seen_rank, lemma_text, lemma_visible_rank, run_cells, seen_before, seen_rank, vis_before,
    visible_rank,
};
use crate::fragment::{Fragment, InsertionTimestamp, local_of};
use crate::rope::{Bias, Rope};
use crate::weave::{
    Plan, cuttable, inserted_cells, lemma_gap, lemma_inside, lemma_part, lemma_whole,
    lemma_woven_len, lemma_woven_on, lemma_woven_text, touched, woven,
};

verus! {

/// An edit that is being woven in.
pub ghost struct Weave {
    pub plan: Plan,
    pub timestamp: InsertionTimestamp,
    pub text: Seq<u8>,
}

impl Weave {
    /// The first `p` cells once the first `k` ranges have got their text.
    pub open spec fn upto(self, cells: Seq<Cell>, k: int, p: int) -> Seq<Cell> {
        woven(
            touched(cells, self.plan, local_of(self.timestamp)),
            self.plan.at,
            inserted_cells(self.timestamp, self.text),
            k,
            p,
        )
    }

    /// The plan is in order, and there is room for the text.
    pub open spec fn ok(self, cells: Seq<Cell>) -> bool {
        &&& self.plan.ok(cells.len() as int)
        &&& cells.len() + self.plan.at.len() * self.text.len() < usize::MAX
    }

    /// The place `p` lies after range `k - 1` and not after the start of `k`.
    pub open spec fn in_gap(self, k: int, p: int) -> bool {
        &&& 0 <= k <= self.plan.at.len()
        &&& k > 0 ==> self.plan.ends[k - 1] <= p
        &&& k < self.plan.at.len() ==> p <= self.plan.at[k]
    }
}

/// A document, how far it has been gone through, and what has been made of it
/// so far.
pub struct Splicer<'a> {
    pub cursor: FragmentCursor<'a>,
    pub builder: DocumentBuilder<'a>,
    /// How much of the fragment at the cursor has been used.
    pub taken: usize,
}

impl<'a> Splicer<'a> {
    /// The document that is gone through.
    pub open spec fn doc(&self) -> Doc {
        Doc {
            pieces: self.cursor.pieces(),
            visible: self.builder.ropes.old_visible_cursor.text(),
            deleted: self.builder.ropes.old_deleted_cursor.text(),
        }
    }

    pub open spec fn index(&self) -> int {
        self.cursor.index as int
    }

    /// How many cells have been used.
    pub open spec fn at(&self) -> int {
        self.doc().len_before(self.index()) + self.taken
    }

    /// The end of the fragment at the cursor.
    pub open spec fn end(&self) -> int {
        if self.index() < self.doc().n() {
            self.doc().len_before(self.index() + 1)
        } else {
            self.at()
        }
    }

    /// What has been made so far.
    pub open spec fn out(&self) -> Seq<Cell> {
        self.builder.built().cells()
    }

    pub open spec fn version(&self) -> Version {
        self.cursor.version@
    }

    pub open spec fn wf(&self) -> bool {
        &&& self.cursor.wf()
        &&& self.builder.wf()
        &&& self.doc().wf()
        &&& self.builder.used(self.doc(), self.at())
        &&& self.index() < self.doc().n() ==> self.taken <= self.doc().pieces[self.index()].len
        &&& self.index() == self.doc().n() ==> self.taken == 0
    }

    /// The same document as that of `other`.
    pub open spec fn along(&self, other: &Splicer<'a>) -> bool {
        &&& self.doc() == other.doc()
        &&& self.cursor.fragments == other.cursor.fragments
        &&& self.cursor.version == other.cursor.version
    }

    /// What has been made is the edit, up to here, with the text of the first
    /// `k` ranges.
    pub open spec fn weaves(&self, w: Weave, k: int) -> bool {
        &&& self.wf()
        &&& w.ok(self.doc().cells())
        &&& 0 <= k <= w.plan.at.len()
        &&& k > 0 ==> w.plan.at[k - 1] <= self.at()
        &&& self.out() == w.upto(self.doc().cells(), k, self.at())
        &&& 0 < self.taken && self.at() < self.end() ==> w.plan.cut(self.at())
        &&& cuttable(self.doc().cells(), self.at())
    }

    pub fn new(
        fragments: &'a Vec<Fragment>,
        visible: &'a Rope,
        deleted: &'a Rope,
        version: &'a Global,
    ) -> (splicer: Splicer<'a>)
        requires
            visible.wf(),
            deleted.wf(),
            doc_of(fragments@, visible@, deleted@).wf(),
        ensures
            splicer.wf(),
            splicer.doc() == doc_of(fragments@, visible@, deleted@),
            splicer.cursor.fragments == fragments,
            splicer.version() == version@,
            splicer.index() == 0,
            splicer.at() == 0,
            splicer.out() == Seq::<Cell>::empty(),
    {
        let ghost d = doc_of(fragments@, visible@, deleted@);
        let cursor = FragmentCursor::new(fragments, version);
        let builder = DocumentBuilder::new(visible, deleted, Ghost(d));
        Splicer { cursor, builder, taken: 0 }
    }

    pub proof fn lemma_here(&self)
        requires
            self.wf(),
        ensures
            self.doc().cells().len() == self.doc().len_before(self.doc().n()),
            self.doc().cells().len() < usize::MAX,
            0 <= self.doc().len_before(self.index()) <= self.at() <= self.end()
                <= self.doc().cells().len(),
            self.index() < self.doc().n() ==> self.end() == self.doc().len_before(self.index())
                + self.doc().pieces[self.index()].len,
            self.index() == self.doc().n() ==> self.at() == self.doc().cells().len(),
            self.index() < self.doc().n() ==> self.doc().pieces[self.index()].len > 0,
            self.taken == 0 ==> cuttable(self.doc().cells(), self.at()),
            cuttable(self.doc().cells(), self.end()),
    {
        let d = self.doc();
        lemma_cells_len(d, d.n());
        lemma_len_before_grows(d, 0, self.index());
        if self.index() < d.n() {
            lemma_text(d, self.index());
            lemma_len_before_grows(d, self.index() + 1, d.n());
            assert(d.fragment_ok(self.index()));
            lemma_cell(d, self.index(), 0);
            if self.index() + 1 < d.n() {
                assert(d.fragment_ok(self.index() + 1));
                lemma_cell(d, self.index() + 1, 0);
            }
        }
    }

    /// The cells of the fragment at the cursor.
    pub proof fn lemma_fragment_cell(&self, j: int)
        requires
            self.wf(),
            self.index() < self.doc().n(),
            self.doc().len_before(self.index()) <= j < self.end(),
        ensures
            0 <= j < self.doc().cells().len(),
            self.doc().cells()[j].timestamp == self.doc().pieces[self.index()].timestamp,
            self.doc().cells()[j].visible == self.doc().pieces[self.index()].visible,
            self.doc().cells()[j].deletions == self.doc().pieces[self.index()].deletions,
            self.doc().cells()[j].max_undos == self.doc().pieces[self.index()].max_undos,
            self.doc().cells()[j].head == (j == self.doc().len_before(self.index())),
            self.doc().cells()[j].byte == self.doc().text(self.index())[j - self.doc().len_before(
                self.index(),
            )],
    {
        self.lemma_here();
        lemma_cell(self.doc(), self.index(), j - self.doc().len_before(self.index()));
    }

    /// A fragment starts here unless part of one has been taken.
    pub proof fn lemma_head(&self)
        requires
            self.wf(),
            self.at() < self.doc().cells().len(),
        ensures
            self.doc().cells()[self.at()].head == !(0 < self.taken && self.at() < self.end()),
    {
        self.lemma_here();
        let d = self.doc();
        if self.at() < self.end() {
            self.lemma_fragment_cell(self.at());
        } else {
            assert(d.fragment_ok(self.index() + 1));
            lemma_cell(d, self.index() + 1, 0);
        }
    }

    /// How much text that the version had seen comes before a place in the
    /// fragment at the cursor.
    pub proof fn lemma_seen_here(&self, j: int)
        requires
            self.wf(),
            self.doc().len_before(self.index()) <= j <= self.end(),
        ensures
            seen_rank(self.doc().cells(), self.version(), j) == self.cursor.offset + if self.index()
                < self.doc().n() && observes(
                self.version(),
                local_of(self.doc().pieces[self.index()].timestamp),
            ) {
                j - self.doc().len_before(self.index())
            } else {
                0
            },
    {
        self.lemma_here();
        lemma_seen_rank(
            self.doc(),
            self.version(),
            self.index(),
            j - self.doc().len_before(self.index()),
        );
    }

    /// How much visible text comes before a place in the fragment at the
    /// cursor.
    pub proof fn lemma_visible_here(&self, j: int)
        requires
            self.wf(),
            self.doc().len_before(self.index()) <= j <= self.end(),
        ensures
            visible_rank(self.doc().cells(), j) == self.cursor.start.visible + if self.index()
                < self.doc().n() && self.doc().pieces[self.index()].visible {
                j - self.doc().len_before(self.index())
            } else {
                0
            },
    {
        self.lemma_here();
        lemma_visible_rank(self.doc(), self.index(), j - self.doc().len_before(self.index()));
    }

    /// The fragment at the cursor; none at the end.
    pub fn item(&self) -> (item: Option<&'a Fragment>)
        requires
            self.wf(),
        ensures
            match item {
                Some(fragment) => self.index() < self.doc().n() && fragment@
                    == self.doc().pieces[self.index()],
                None => self.index() == self.doc().n(),
            },
    {
        self.cursor.item()
    }

    /// How much text that the version had seen has been used.
    pub fn offset(&self) -> (offset: usize)
        requires
            self.wf(),
        ensures
            offset == seen_rank(self.doc().cells(), self.version(), self.at()),
            offset <= usize::MAX,
    {
        proof {
            self.lemma_here();
            self.lemma_seen_here(self.at());
            crate::weave::lemma_seen_rank_grows(
                self.doc().cells(),
                self.version(),
                0,
                self.at(),
            );
        }
        match self.cursor.item() {
            Some(fragment) => {
                if fragment.is_observed(self.cursor.version) {
                    self.cursor.offset + self.taken
                } else {
                    self.cursor.offset
                }
            },
            None => self.cursor.offset,
        }
    }

    /// The same at the end of the fragment at the cursor.
    pub fn end_offset(&self) -> (offset: usize)
        requires
            self.wf(),
        ensures
            offset == seen_rank(self.doc().cells(), self.version(), self.end()),
    {
        proof {
            self.lemma_here();
            self.lemma_seen_here(self.end());
        }
        self.cursor.end_offset()
    }

    /// How much text has been used.
    pub fn position(&self) -> (position: usize)
        requires
            self.wf(),
        ensures
            position == self.at(),
            position <= usize::MAX,
    {
        proof {
            self.lemma_here();
        }
        self.cursor.start.visible + self.cursor.start.deleted + self.taken
    }

    /// How much visible text has been used.
    pub fn visible_offset(&self) -> (offset: usize)
        requires
            self.wf(),
        ensures
            offset == visible_rank(self.doc().cells(), self.at()),
            offset <= usize::MAX,
    {
        proof {
            self.lemma_here();
            self.lemma_visible_here(self.at());
            crate::weave::lemma_visible_rank_grows(self.doc().cells(), 0, self.at());
        }
        match self.cursor.item() {
            Some(fragment) => {
                if fragment.visible {
                    self.cursor.start.visible + self.taken
                } else {
                    self.cursor.start.visible
                }
            },
            None => self.cursor.start.visible,
        }
    }

    /// The same at the end of the fragment at the cursor.
    pub fn end_visible(&self) -> (offset: usize)
        requires
            self.wf(),
        ensures
            offset == visible_rank(self.doc().cells(), self.end()),
    {
        proof {
            self.lemma_here();
            self.lemma_visible_here(self.end());
        }
        self.cursor.end_visible()
    }

    /// Moves on to the next fragment once this one has been used.
    pub fn next(&mut self)
        requires
            old(self).wf(),
            old(self).index() < old(self).doc().n(),
            old(self).at() == old(self).end(),
        ensures
            final(self).wf(),
            final(self).along(old(self)),
            final(self).index() == old(self).index() + 1,
            final(self).taken == 0,
            final(self).at() == old(self).at(),
            final(self).out() == old(self).out(),
    {
        proof {
            self.lemma_here();
        }
        self.cursor.next();
        self.taken = 0;
        proof {
            assert(self.doc() =~= old(self).doc());
        }
    }

    /// Takes over whole fragments, up to the first that ends after `target` in
    /// the text that the version had seen (for `Bias::Left`: at or after it).
    pub fn slice_offset(&mut self, target: usize, bias: Bias)
        requires
            old(self).wf(),
            old(self).taken == 0,
            old(self).out().len() + old(self).doc().cells().len() - old(self).at() < usize::MAX,
        ensures
            final(self).wf(),
            final(self).along(old(self)),
            final(self).taken == 0,
            old(self).index() <= final(self).index(),
            old(self).at() <= final(self).at(),
            final(self).out() == old(self).out() + old(self).doc().cells().subrange(
                old(self).at(),
                final(self).at(),
            ),
            forall|j: int|
                old(self).index() < j <= final(self).index() ==> passes(
                    #[trigger] seen_before(old(self).doc().pieces, old(self).version(), j),
                    target as int,
                    bias,
                ),
            old(self).index() < final(self).index() ==> passes(
                seen_rank(old(self).doc().cells(), old(self).version(), final(self).at()),
                target as int,
                bias,
            ),
            final(self).index() < final(self).doc().n() ==> !passes(
                seen_rank(old(self).doc().cells(), old(self).version(), final(self).end()),
                target as int,
                bias,
            ),
    {
        let ghost d = self.doc();
        let ghost a = self.index();
        let slice = self.cursor.slice_offset(target, bias);
        proof {
            assert(self.doc() =~= d);
            let b = self.index();
            lemma_cells_slice(d, a, b);
            lemma_cells_slice(d, b, d.n());
            lemma_cells_len(d, d.n());
            lemma_seen_rank(d, self.version(), b, 0);
            if a < b {
                assert(passes(seen_before(d.pieces, self.version(), b), target as int, bias));
            }
            if b < d.n() {
                lemma_seen_rank(d, self.version(), b + 1, 0);
            }
        }
        self.builder.push_slice(slice, Ghost(d), Ghost(a), Ghost(self.index()));
        assert(self.doc() =~= d);
    }

    /// The same for the visible text.
    pub fn slice_visible(&mut self, target: usize, bias: Bias)
        requires
            old(self).wf(),
            old(self).taken == 0,
            old(self).out().len() + old(self).doc().cells().len() - old(self).at() < usize::MAX,
        ensures
            final(self).wf(),
            final(self).along(old(self)),
            final(self).taken == 0,
            old(self).index() <= final(self).index(),
            old(self).at() <= final(self).at(),
            final(self).out() == old(self).out() + old(self).doc().cells().subrange(
                old(self).at(),
                final(self).at(),
            ),
            old(self).index() < final(self).index() ==> passes(
                visible_rank(old(self).doc().cells(), final(self).at()),
                target as int,
                bias,
            ),
            final(self).index() < final(self).doc().n() ==> !passes(
                visible_rank(old(self).doc().cells(), final(self).end()),
                target as int,
                bias,
            ),
    {
        let ghost d = self.doc();
        let ghost a = self.index();
        let slice = self.cursor.slice_visible(target, bias);
        proof {
            assert(self.doc() =~= d);
            let b = self.index();
            lemma_cells_slice(d, a, b);
            lemma_cells_slice(d, b, d.n());
            lemma_cells_len(d, d.n());
            lemma_visible_rank(d, b, 0);
            if a < b {
                assert(passes(vis_before(d.pieces, b), target as int, bias));
            }
            if b < d.n() {
                lemma_visible_rank(d, b + 1, 0);
            }
        }
        self.builder.push_slice(slice, Ghost(d), Ghost(a), Ghost(self.index()));
        assert(self.doc() =~= d);
    }

    /// Takes over all the fragments that are left.
    pub fn suffix(&mut self)
        requires
            old(self).wf(),
            old(self).taken == 0,
            old(self).out().len() + old(self).doc().cells().len() - old(self).at() < usize::MAX,
        ensures
            final(self).wf(),
            final(self).along(old(self)),
            final(self).taken == 0,
            final(self).index() == final(self).doc().n(),
            final(self).at() == final(self).doc().cells().len(),
            final(self).out() == old(self).out() + old(self).doc().cells().subrange(
                old(self).at(),
                final(self).at(),
            ),
    {
        let ghost d = self.doc();
        let ghost a = self.index();
        let slice = self.cursor.suffix();
        proof {
            assert(self.doc() =~= d);
            lemma_cells_slice(d, a, d.n());
            lemma_cells_len(d, d.n());
        }
        self.builder.push_slice(slice, Ghost(d), Ghost(a), Ghost(self.index()));
        assert(self.doc() =~= d);
    }

    /// Uses the next part of the fragment at the cursor as the fragment given.
    pub fn take(&mut self, fragment: Fragment)
        requires
            old(self).wf(),
            old(self).index() < old(self).doc().n(),
            fragment.len > 0,
            old(self).at() + fragment.len <= old(self).end(),
            cuttable(old(self).doc().cells(), old(self).at()),
            cuttable(old(self).doc().cells(), old(self).at() + fragment.len),
            old(self).out().len() + fragment.len < usize::MAX,
        ensures
            final(self).wf(),
            final(self).along(old(self)),
            final(self).index() == old(self).index(),
            final(self).at() == old(self).at() + fragment.len,
            final(self).taken == old(self).taken + fragment.len,
            final(self).end() == old(self).end(),
            final(self).out() == old(self).out() + run_cells(
                fragment@,
                cell_bytes(
                    old(self).doc().cells(),
                    old(self).at(),
                    old(self).at() + fragment.len,
                ),
            ),
    {
        let ghost d = self.doc();
        let was_visible = self.cursor.fragments[self.cursor.index].visible;
        let len = fragment.len;
        proof {
            self.lemma_here();
            self.lemma_fragment_cell(self.at());
            assert(d.fragment_ok(self.index()));
            if self.at() + len < self.end() {
                self.lemma_fragment_cell(self.at() + len);
            }
        }
        self.builder.push_part(
            fragment,
            was_visible,
            Ghost(d),
            Ghost(self.index()),
            Ghost(self.taken as int),
        );
        self.taken = self.taken + len;
        assert(self.doc() =~= d);
    }

    /// The document made, once everything has been used.
    pub fn finish(self) -> (parts: (Vec<Fragment>, Rope, Rope))
        requires
            self.wf(),
            self.at() == self.doc().cells().len(),
        ensures
            doc_of(parts.0@, parts.1@, parts.2@).wf(),
            doc_of(parts.0@, parts.1@, parts.2@).cells() == self.out(),
            parts.1.wf(),
            parts.2.wf(),
    {
        let ghost d = self.doc();
        self.builder.finish(Ghost(d))
    }

    /// There is room for what is left.
    pub proof fn lemma_room(&self, w: Weave, k: int)
        requires
            self.weaves(w, k),
        ensures
            self.out().len() == self.at() + k * w.text.len(),
            self.out().len() + self.doc().cells().len() - self.at() < usize::MAX,
            k < w.plan.at.len() ==> self.out().len() + self.doc().cells().len() - self.at()
                + w.text.len() < usize::MAX,
    {
        self.lemma_here();
        let cells = self.doc().cells();
        let plan = w.plan;
        assert forall|j: int| 0 <= j < k implies 0 <= #[trigger] plan.at[j] <= self.at() by {
            if j < k - 1 {
                assert(plan.ends[j] <= plan.at[k - 1]);
            }
        }
        assert forall|i: int, j: int| 0 <= i < j < k implies #[trigger] plan.at[i]
            <= #[trigger] plan.at[j] by {
            assert(plan.ends[i] <= plan.at[j]);
        }
        lemma_woven_len(
            touched(cells, plan, local_of(w.timestamp)),
            plan.at,
            inserted_cells(w.timestamp, w.text),
            k,
            self.at(),
        );
        assert(inserted_cells(w.timestamp, w.text).len() == w.text.len());
        let n = plan.at.len() as int;
        let len = w.text.len() as int;
        assert(k * len <= n * len) by (nonlinear_arith)
            requires
                k <= n,
                0 <= len,
        ;
        if k < n {
            assert(k * len + len <= n * len) by (nonlinear_arith)
                requires
                    k + 1 <= n,
                    0 <= len,
            ;
        }
    }

    /// Whole fragments between two ranges are taken over as they are.
    pub proof fn lemma_weaves_whole(&self, before: &Splicer<'a>, w: Weave, k: int)
        requires
            before.weaves(w, k),
            before.taken == 0,
            self.wf(),
            self.along(before),
            self.taken == 0,
            before.index() <= self.index(),
            w.in_gap(k, before.at()),
            w.in_gap(k, self.at()),
            self.out() == before.out() + before.doc().cells().subrange(before.at(), self.at()),
        ensures
            self.weaves(w, k),
    {
        let d = self.doc();
        self.lemma_here();
        before.lemma_here();
        lemma_len_before_grows(d, before.index(), self.index());
        lemma_gap(w.plan, d.cells().len() as int, k, before.at(), self.at());
        assert forall|j: int| 0 <= j < d.n() implies (#[trigger] d.pieces[j]).len > 0 by {
            assert(d.fragment_ok(j));
        }
        lemma_whole(d, w.plan, local_of(w.timestamp), before.index(), self.index());
        lemma_woven_on(
            touched(d.cells(), w.plan, local_of(w.timestamp)),
            w.plan.at,
            inserted_cells(w.timestamp, w.text),
            k,
            before.at(),
            self.at(),
        );
    }

    /// Takes over the next `len` bytes of the fragment at the cursor as they
    /// are.
    pub fn keep(&mut self, len: usize, Ghost(w): Ghost<Weave>, Ghost(k): Ghost<int>)
        requires
            old(self).weaves(w, k),
            old(self).index() < old(self).doc().n(),
            len > 0,
            old(self).at() + len <= old(self).end(),
            cuttable(old(self).doc().cells(), old(self).at() + len),
            w.in_gap(k, old(self).at()),
            w.in_gap(k, old(self).at() + len),
            old(self).at() + len < old(self).end() ==> w.plan.cut(old(self).at() + len),
        ensures
            final(self).weaves(w, k),
            final(self).along(old(self)),
            final(self).index() == old(self).index(),
            final(self).at() == old(self).at() + len,
            final(self).taken == old(self).taken + len,
            final(self).end() == old(self).end(),
    {
        let ghost d = self.doc();
        let mut part = self.cursor.fragments[self.cursor.index].clone();
        part.len = len;
        proof {
            self.lemma_here();
            self.lemma_room(w, k);
            lemma_gap(w.plan, d.cells().len() as int, k, self.at(), self.at() + len);
            lemma_part(
                d,
                w.plan,
                local_of(w.timestamp),
                self.index(),
                self.taken as int,
                len as int,
                false,
                part@,
            );
            lemma_woven_on(
                touched(d.cells(), w.plan, local_of(w.timestamp)),
                w.plan.at,
                inserted_cells(w.timestamp, w.text),
                k,
                self.at(),
                self.at() + len,
            );
        }
        self.take(part);
    }

    /// Takes over the rest of a fragment that has been used in part, and moves
    /// on.
    pub fn close(&mut self, Ghost(w): Ghost<Weave>, Ghost(k): Ghost<int>)
        requires
            old(self).weaves(w, k),
            w.in_gap(k, old(self).at()),
            old(self).taken > 0 ==> w.in_gap(k, old(self).end()),
        ensures
            final(self).weaves(w, k),
            final(self).along(old(self)),
            final(self).taken == 0,
            final(self).at() == if old(self).taken > 0 {
                old(self).end()
            } else {
                old(self).at()
            },
            final(self).index() == if old(self).taken > 0 {
                old(self).index() + 1
            } else {
                old(self).index()
            },
    {
        if self.taken > 0 {
            let len = self.cursor.fragments[self.cursor.index].len;
            proof {
                self.lemma_here();
            }
            if self.taken < len {
                self.keep(len - self.taken, Ghost(w), Ghost(k));
            }
            proof {
                self.lemma_here();
            }
            self.next();
            proof {
                self.lemma_here();
            }
        }
    }

    /// Inserts the text of range `k`.
    pub fn insert(
        &mut self,
        timestamp: InsertionTimestamp,
        text: &str,
        Ghost(w): Ghost<Weave>,
        Ghost(k): Ghost<int>,
    )
        requires
            old(self).weaves(w, k),
            k < w.plan.at.len(),
            old(self).at() == w.plan.at[k],
            timestamp == w.timestamp,
            encode_utf8(text@) == w.text,
        ensures
            final(self).weaves(w, k + 1),
            final(self).along(old(self)),
            final(self).index() == old(self).index(),
            final(self).at() == old(self).at(),
            final(self).taken == old(self).taken,
    {
        let ghost d = self.doc();
        let len = text.as_bytes().len();
        proof {
            self.lemma_here();
            self.lemma_room(w, k);
            lemma_woven_text(
                touched(d.cells(), w.plan, local_of(w.timestamp)),
                w.plan.at,
                inserted_cells(w.timestamp, w.text),
                k,
            );
        }
        if len > 0 {
            let fragment = Fragment::inserted(timestamp, len);
            self.builder.push_insertion(fragment, text);
        } else {
            proof {
                assert(inserted_cells(w.timestamp, w.text) =~= Seq::<Cell>::empty());
                assert(self.out() + inserted_cells(w.timestamp, w.text) =~= self.out());
            }
        }
        assert(self.doc() =~= d);
        assert(self.builder.used(d, self.at()));
    }

    /// Range `k` gets no text.
    pub proof fn lemma_no_text(&self, w: Weave, k: int)
        requires
            self.weaves(w, k),
            k < w.plan.at.len(),
            self.at() == w.plan.at[k],
            w.text == Seq::<u8>::empty(),
        ensures
            self.weaves(w, k + 1),
    {
        self.lemma_here();
        lemma_woven_text(
            touched(self.doc().cells(), w.plan, local_of(w.timestamp)),
            w.plan.at,
            inserted_cells(w.timestamp, w.text),
            k,
        );
        assert(inserted_cells(w.timestamp, w.text) =~= Seq::<Cell>::empty());
        assert(self.out() + inserted_cells(w.timestamp, w.text) =~= self.out());
    }

    /// Takes over all that follows the last range.
    pub fn rest(&mut self, Ghost(w): Ghost<Weave>)
        requires
            old(self).weaves(w, w.plan.at.len() as int),
            old(self).taken == 0,
            w.in_gap(w.plan.at.len() as int, old(self).at()),
        ensures
            final(self).wf(),
            final(self).along(old(self)),
            final(self).at() == final(self).doc().cells().len(),
            final(self).out() == w.upto(
                final(self).doc().cells(),
                w.plan.at.len() as int,
                final(self).doc().cells().len() as int,
            ),
    {
        let ghost k = w.plan.at.len() as int;
        proof {
            self.lemma_room(w, k);
        }
        let ghost before = *self;
        self.suffix();
        proof {
            self.lemma_weaves_whole(&before, w, k);
        }
    }

    /// Takes over the next `len` bytes of the fragment at the cursor, which
    /// lie in range `k`, hidden by the edit or as they are.
    pub fn cover(
        &mut self,
        len: usize,
        hit: bool,
        deletion: Local,
        Ghost(w): Ghost<Weave>,
        Ghost(k): Ghost<int>,
    )
        requires
            old(self).weaves(w, k + 1),
            deletion == local_of(w.timestamp),
            0 <= k < w.plan.at.len(),
            old(self).index() < old(self).doc().n(),
            len > 0,
            old(self).at() + len <= old(self).end(),
            cuttable(old(self).doc().cells(), old(self).at() + len),
            old(self).at() + len <= w.plan.ends[k],
            old(self).at() + len < old(self).end() ==> w.plan.cut(old(self).at() + len),
            forall|j: int|
                old(self).at() <= j < old(self).at() + len ==> #[trigger] w.plan.hits.contains(j)
                    == hit,
        ensures
            final(self).weaves(w, k + 1),
            final(self).along(old(self)),
            final(self).index() == old(self).index(),
            final(self).at() == old(self).at() + len,
            final(self).taken == old(self).taken + len,
            final(self).end() == old(self).end(),
    {
        let ghost d = self.doc();
        let mut part = self.cursor.fragments[self.cursor.index].clone();
        part.len = len;
        if hit {
            part.delete(deletion);
            part.visible = false;
        }
        proof {
            self.lemma_here();
            self.lemma_room(w, k + 1);
            lemma_inside(w.plan, d.cells().len() as int, k);
            lemma_part(
                d,
                w.plan,
                deletion,
                self.index(),
                self.taken as int,
                len as int,
                hit,
                part@,
            );
            lemma_woven_on(
                touched(d.cells(), w.plan, deletion),
                w.plan.at,
                inserted_cells(w.timestamp, w.text),
                k + 1,
                self.at(),
                self.at() + len,
            );
        }
        self.take(part);
    }
}

} // verus!
