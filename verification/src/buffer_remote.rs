//! Applying the operations of other replicas.

use std::ops::Range;
use vstd::prelude::*;
use vstd::utf8::*;

use crate::buffer::Buffer;
use crate::builder::FragmentCursor;
use crate::clock::{Global, Lamport, ReplicaId, Version, after, includes, observing};
use crate::context::{EffectModel, ModelContext};
use crate::document::{
    all_seen, lemma_cell, lemma_cells_len, lemma_len_before_grows, lemma_seen_rank, lemma_text,
    seen_rank,
};
use crate::error::Error;
use crate::fragment::{InsertionTimestamp, lamport_of, local_of};
use crate::local::lemma_fragment_end;
use crate::operation::{
    EditModel, EditOperation, Operation, OperationModel, Selection, SelectionSet, bytes_of,
    operation_models, selection_models,
};
use crate::remote::{pairs, remote_edit, text_bytes};
use crate::rope::{Bias, continues_char};
use crate::state::{
    Run, State, applied, can_apply, edit_fits, first_run, flush_run, flushed, op_fits, ops_applied,
    ops_effects, ops_fail, remote_edit_applied, run_ops, run_queued, selections_known,
};
use crate::undo_laws::{lemma_edit_seen, lemma_in_sequence};
use crate::weave::{
    clear, cuttable, goes_on, in_order, landing_at, lemma_remote_plan, lemma_seek,
    lemma_seen_rank_grows, lemma_skip_on, lemma_skip_stops, passable, remote_ok, remote_plan, seek,
    skip_newer,
};

verus! {

/// Ranges of which none starts before the one before it ends are in order.
proof fn lemma_in_order(ranges: Seq<(int, int)>, n: int)
    requires
        0 <= n <= ranges.len(),
        forall|k: int| 0 <= k < n ==> 0 <= (#[trigger] ranges[k]).0 <= ranges[k].1,
        forall|k: int|
            #![trigger ranges[k]]
            0 < k < n ==> ranges[k - 1].1 <= ranges[k].0,
    ensures
        forall|j: int, k: int|
            0 <= j < k < n ==> (#[trigger] ranges[j]).1 <= (#[trigger] ranges[k]).0,
    decreases n,
{
    if n > 0 {
        lemma_in_order(ranges, n - 1);
        assert forall|j: int, k: int| 0 <= j < k < n implies (#[trigger] ranges[j]).1 <= (
        #[trigger] ranges[k]).0 by {
            if k == n - 1 {
                assert(ranges[k - 1].1 <= ranges[k].0);
                if j < k - 1 {
                    assert(ranges[j].1 <= ranges[k - 1].0);
                }
            }
        }
    }
}

/// Whether the ranges are in order; they may touch.
fn are_in_order(ranges: &Vec<Range<usize>>) -> (b: bool)
    ensures
        b == in_order(pairs(ranges@)),
{
    let ghost views = pairs(ranges@);
    let mut i: usize = 0;
    while i < ranges.len()
        invariant
            i <= ranges@.len(),
            views == pairs(ranges@),
            forall|k: int| 0 <= k < i ==> 0 <= (#[trigger] views[k]).0 <= views[k].1,
            forall|k: int|
                #![trigger views[k]]
                0 < k < i ==> views[k - 1].1 <= views[k].0,
        decreases ranges@.len() - i,
    {
        assert(views[i as int] == (ranges@[i as int].start as int, ranges@[i as int].end as int));
        if ranges[i].start > ranges[i].end {
            return false;
        }
        if i > 0 {
            assert(views[i - 1] == (ranges@[i - 1].start as int, ranges@[i - 1].end as int));
            if ranges[i - 1].end > ranges[i].start {
                return false;
            }
        }
        i = i + 1;
    }
    proof {
        lemma_in_order(views, views.len() as int);
    }
    true
}

/// Where an edit inserts its text: within a fragment or before the one at
/// `index`; whether nothing was in the way that its version had seen; and how
/// much of what its version had seen comes before that place.
struct Landing {
    within: bool,
    clear: bool,
    index: usize,
    offset: usize,
}

impl Landing {
    /// The text of an edit goes there for a range that starts at an offset.
    spec fn is_for(self, buffer: &Buffer, v: Version, lamport: Lamport, offset: int) -> bool {
        let cells = buffer@.cells;
        let at = landing_at(cells, v, lamport, offset);
        &&& self.within == goes_on(cells, v, seek(cells, v, offset))
        &&& self.clear == clear(cells, v, lamport, offset)
        &&& !self.within ==> {
            &&& self.index <= buffer.doc().n()
            &&& buffer.doc().len_before(self.index as int) == at
            &&& self.offset == seen_rank(cells, v, at)
        }
    }
}

impl Buffer {
    /// Where an edit inserts its text for a range that starts at an offset.
    fn landing(&self, version: &Global, lamport: Lamport, offset: usize) -> (landing: Landing)
        requires
            self.wf(),
            offset <= seen_rank(self@.cells, version@, self@.cells.len() as int),
        ensures
            landing.is_for(self, version@, lamport, offset as int),
    {
        let ghost d = self.doc();
        let ghost cells = self@.cells;
        let ghost v = version@;
        let ghost p = seek(cells, v, offset as int);
        let mut cursor = FragmentCursor::new(&self.fragments, version);
        cursor.seek_offset(offset, Bias::Left);
        let ghost i = cursor.index as int;
        let mut j: usize = cursor.index;
        proof {
            lemma_seek(cells, v, offset as int);
            lemma_skip_stops(cells, lamport, p);
            lemma_cells_len(d, d.n());
            lemma_len_before_grows(d, 0, i);
            lemma_len_before_grows(d, i, d.n());
            lemma_seen_rank(d, v, i, 0);
            if i < d.n() {
                assert(d.fragment_ok(i));
                lemma_len_before_grows(d, i + 1, d.n());
                lemma_seen_rank(d, v, i, d.pieces[i].len as int);
            }
        }
        match cursor.item() {
            Some(fragment) => {
                let overshoot = if fragment.is_observed(version) && offset > cursor.offset {
                    offset - cursor.offset
                } else {
                    0
                };
                proof {
                    lemma_seen_rank(d, v, i, overshoot as int);
                    if overshoot > 0 {
                        lemma_seen_rank(d, v, i, overshoot - 1);
                    }
                    crate::content::lemma_seek_is(
                        cells,
                        v,
                        offset as int,
                        0,
                        d.len_before(i) + overshoot,
                    );
                }
                if overshoot == fragment.len {
                    assert(j < self.fragments.len());
                    j = j + 1;
                } else if overshoot > 0 {
                    proof {
                        lemma_cell(d, i, overshoot as int);
                        if after(lamport_of(cells[p].timestamp), lamport) {
                            lemma_seen_rank_grows(
                                cells,
                                v,
                                p + 1,
                                skip_newer(cells, lamport, p),
                            );
                        }
                    }
                    return Landing {
                        within: true,
                        clear: !fragment.timestamp.lamport().is_after(&lamport),
                        index: j,
                        offset,
                    };
                }
            },
            None => {
                proof {
                    if cells.len() > 0 {
                        lemma_seen_rank_grows(cells, v, cells.len() - 1, cells.len() as int);
                    }
                    crate::content::lemma_seek_is(
                        cells,
                        v,
                        offset as int,
                        0,
                        cells.len() as int,
                    );
                }
            },
        }
        let mut reached: usize = offset;
        proof {
            if j < d.n() {
                assert(d.fragment_ok(j as int));
                lemma_cell(d, j as int, 0);
            }
            assert(p == d.len_before(j as int));
        }
        while j < self.fragments.len()
            invariant
                self.wf(),
                d == self.doc(),
                cells == d.cells(),
                v == version@,
                j <= self.fragments@.len(),
                p == seek(cells, v, offset as int),
                !goes_on(cells, v, p),
                seen_rank(cells, v, p) == offset,
                seen_rank(cells, v, d.len_before(j as int)) == reached,
                0 <= p <= d.len_before(j as int) <= cells.len(),
                skip_newer(cells, lamport, p) == skip_newer(
                    cells,
                    lamport,
                    d.len_before(j as int),
                ),
            decreases self.fragments@.len() - j,
        {
            let fragment = &self.fragments[j];
            let ghost from = d.len_before(j as int);
            let ghost to = d.len_before(j + 1);
            proof {
                assert(fragment@ == d.pieces[j as int]);
                assert(d.fragment_ok(j as int));
                lemma_cell(d, j as int, 0);
                lemma_cells_len(d, d.n());
                lemma_len_before_grows(d, 0, j as int);
                lemma_len_before_grows(d, j + 1, d.n());
                lemma_seen_rank(d, v, j as int, 0);
                lemma_seen_rank(d, v, j as int, d.pieces[j as int].len as int);
                lemma_seen_rank_grows(cells, v, 0, to);
            }
            if !fragment.timestamp.lamport().is_after(&lamport) {
                return Landing { within: false, clear: reached == offset, index: j, offset: reached };
            }
            proof {
                assert forall|q: int| from <= q < to implies after(
                    lamport_of((#[trigger] cells[q]).timestamp),
                    lamport,
                ) by {
                    lemma_cell(d, j as int, q - from);
                }
                lemma_skip_on(cells, lamport, from, to);
            }
            if fragment.is_observed(version) {
                reached = reached + fragment.len;
            }
            j = j + 1;
        }
        proof {
            lemma_cells_len(d, d.n());
        }
        Landing { within: false, clear: reached == offset, index: j, offset: reached }
    }

    /// Whether range `i` of an edit comes where its text can go.
    fn is_passable(&self, edit: &EditOperation, i: usize) -> (b: bool)
        requires
            self.wf(),
            i < edit.ranges@.len(),
            pairs(edit.ranges@)[i as int].0 <= seen_rank(
                self@.cells,
                edit.version@,
                self@.cells.len() as int,
            ),
        ensures
            b == passable(
                self@.cells,
                self@.log,
                edit.version@,
                lamport_of(edit.timestamp),
                pairs(edit.ranges@),
                i as int,
            ),
    {
        let ranges = &edit.ranges;
        let version = &edit.version;
        let ghost d = self.doc();
        let ghost views = pairs(ranges@);
        let start = ranges[i].start;
        let end = ranges[i].end;
        let landing = self.landing(version, edit.timestamp.lamport(), start);
        let last = i == ranges.len() - 1;
        proof {
            assert(views[i as int] == (start as int, end as int));
            if !last {
                assert(views[i + 1].0 == ranges@[i + 1].start);
            }
            if i > 0 {
                assert(views[i - 1].1 == ranges@[i - 1].end);
            }
            lemma_cells_len(d, d.n());
            if landing.index < d.n() {
                let j = landing.index as int;
                assert(d.fragment_ok(j));
                assert(self.fragments@[j]@ == d.pieces[j]);
                lemma_cell(d, j, 0);
                lemma_fragment_end(d, j, 0);
                lemma_seen_rank(d, edit.version@, j, d.pieces[j].len as int);
                lemma_seen_rank(d, edit.version@, j, 0);
                lemma_len_before_grows(d, j + 1, d.n());
                lemma_seen_rank_grows(d.cells(), edit.version@, 0, d.len_before(j + 1));
            }
        }
        if landing.clear {
            return true;
        }
        if landing.within {
            return i == 0 || ranges[i - 1].end < start;
        }
        if start == end {
            if last || ranges[i + 1].start == start {
                return true;
            }
            if landing.index >= self.fragments.len() {
                return false;
            }
            let fragment = &self.fragments[landing.index];
            let past = if fragment.is_observed(version) {
                landing.offset + fragment.len
            } else {
                landing.offset
            };
            past < ranges[i + 1].start
        } else {
            if landing.index >= self.fragments.len() {
                return false;
            }
            let fragment = &self.fragments[landing.index];
            !fragment.was_visible(version, &self.undo_map) && (landing.offset < end || (
            landing.offset == end && !fragment.is_observed(version) && (last || ranges[i + 1].start
                > end)))
        }
    }

    /// Whether an offset in the text that a version had seen lies between
    /// characters.
    fn is_cuttable(&self, version: &Global, offset: usize) -> (b: bool)
        requires
            self.wf(),
        ensures
            b == cuttable(self@.cells, seek(self@.cells, version@, offset as int)),
    {
        let ghost d = self.doc();
        let ghost cells = self@.cells;
        let ghost v = version@;
        let mut cursor = FragmentCursor::new(&self.fragments, version);
        cursor.seek_offset(offset, Bias::Left);
        let ghost i = cursor.index as int;
        proof {
            lemma_cells_len(d, d.n());
            lemma_len_before_grows(d, 0, i);
            lemma_len_before_grows(d, i, d.n());
            lemma_seen_rank(d, v, i, 0);
            if i < d.n() {
                assert(d.fragment_ok(i));
                lemma_text(d, i);
                lemma_len_before_grows(d, i + 1, d.n());
                lemma_seen_rank(d, v, i, d.pieces[i].len as int);
            }
        }
        match cursor.item() {
            Some(fragment) => {
                let overshoot = if fragment.is_observed(version) && offset > cursor.offset {
                    offset - cursor.offset
                } else {
                    0
                };
                proof {
                    let p = d.len_before(i) + overshoot;
                    lemma_seen_rank(d, v, i, overshoot as int);
                    if overshoot > 0 {
                        lemma_seen_rank(d, v, i, overshoot - 1);
                    }
                    crate::content::lemma_seek_is(cells, v, offset as int, 0, p);
                    if overshoot < fragment.len {
                        lemma_cell(d, i, overshoot as int);
                    } else if i + 1 < d.n() {
                        assert(d.fragment_ok(i + 1));
                        lemma_cell(d, i + 1, 0);
                    }
                }
                if overshoot == 0 || overshoot == fragment.len {
                    true
                } else if fragment.visible {
                    let at = cursor.start.visible + overshoot;
                    assert(d.text(i)[overshoot as int] == self.visible_text@[at as int]);
                    !continues_char(self.visible_text.as_bytes()[at])
                } else {
                    let at = cursor.start.deleted + overshoot;
                    assert(d.text(i)[overshoot as int] == self.deleted_text@[at as int]);
                    !continues_char(self.deleted_text.as_bytes()[at])
                }
            },
            None => {
                proof {
                    if cells.len() > 0 {
                        lemma_seen_rank_grows(
                            cells,
                            v,
                            cells.len() - 1,
                            cells.len() as int,
                        );
                    }
                    crate::content::lemma_seek_is(
                        cells,
                        v,
                        offset as int,
                        0,
                        cells.len() as int,
                    );
                }
                true
            },
        }
    }

    /// How much text a version had seen.
    fn seen_len(&self, version: &Global) -> (len: usize)
        requires
            self.wf(),
        ensures
            len == seen_rank(self@.cells, version@, self@.cells.len() as int),
    {
        let ghost d = self.doc();
        let mut cursor = FragmentCursor::new(&self.fragments, version);
        while cursor.index < self.fragments.len()
            invariant
                cursor.wf(),
                cursor.fragments == &self.fragments,
                cursor.version == version,
            decreases self.fragments@.len() - cursor.index,
        {
            cursor.next();
        }
        proof {
            lemma_cells_len(d, d.n());
            lemma_seen_rank(d, version@, d.n(), 0);
        }
        cursor.offset
    }

    /// Whether there is room for a text to be inserted a number of times.
    fn has_room(&self, times: usize, len: usize) -> (b: bool)
        requires
            self.wf(),
        ensures
            b == (self@.cells.len() + times * len < usize::MAX),
    {
        proof {
            lemma_cells_len(self.doc(), self.doc().n());
        }
        let size = self.visible_text.len() + self.deleted_text.len();
        let mut total: usize = size;
        let mut i: usize = 0;
        assert(0 * len == 0);
        while i < times
            invariant
                i <= times,
                size == self@.cells.len(),
                total == size + i * len,
                total < usize::MAX,
            decreases times - i,
        {
            assert((i + 1) * len == i * len + len) by (nonlinear_arith);
            assert((i + 1) * len <= times * len) by (nonlinear_arith)
                requires
                    i + 1 <= times,
            ;
            if len >= usize::MAX - total {
                return false;
            }
            total = total + len;
            i = i + 1;
        }
        true
    }

    /// Whether an edit of another replica names places that are there, and there
    /// is room for it.
    fn is_edit_valid(&self, edit: &EditOperation) -> (b: bool)
        requires
            self.wf(),
        ensures
            b == edit_fits(self@, edit@),
    {
        let ranges = &edit.ranges;
        if ranges.len() == 0 {
            return true;
        }
        let ghost views = pairs(ranges@);
        let ghost cells = self@.cells;
        let ghost v = edit.version@;
        if edit.timestamp.local == u32::MAX || edit.timestamp.lamport == u32::MAX
            || self.lamport_clock.value == u32::MAX {
            return false;
        }
        let text_len: usize = match &edit.new_text {
            Some(text) => text.as_str().as_bytes().len(),
            None => 0,
        };
        if !are_in_order(ranges) || !self.has_room(ranges.len(), text_len) {
            return false;
        }
        let seen_len = self.seen_len(&edit.version);
        let mut i: usize = 0;
        while i < ranges.len()
            invariant
                i <= ranges@.len(),
                self.wf(),
                cells == self@.cells,
                v == edit.version@,
                *ranges == edit.ranges,
                views == pairs(ranges@),
                seen_len == seen_rank(cells, v, cells.len() as int),
                in_order(views),
                forall|k: int|
                    0 <= k < i ==> (#[trigger] views[k]).1 <= seen_len && passable(
                        cells,
                        self@.log,
                        v,
                        lamport_of(edit.timestamp),
                        views,
                        k,
                    ) && cuttable(cells, seek(cells, v, views[k].0)) && cuttable(
                        cells,
                        seek(cells, v, views[k].1),
                    ),
            decreases ranges@.len() - i,
        {
            assert(views[i as int] == (
                ranges@[i as int].start as int,
                ranges@[i as int].end as int,
            ));
            assert(views[i as int].0 <= views[i as int].1);
            if ranges[i].end > seen_len || !self.is_passable(edit, i) || !self.is_cuttable(
                &edit.version,
                ranges[i].start,
            )
                || !self.is_cuttable(&edit.version, ranges[i].end) {
                return false;
            }
            i = i + 1;
        }
        true
    }

    /// Whether an operation can be applied: it names places that are there, and
    /// the clocks can be moved past it.
    pub fn is_valid_op(&self, op: &Operation) -> (b: bool)
        requires
            self.wf(),
        ensures
            b == op_fits(self@, op@),
    {
        match op {
            Operation::Edit(edit) => self.version.observed(edit.timestamp.local())
                || self.is_edit_valid(edit),
            Operation::Undo { undo, lamport_timestamp } => self.version.observed(undo.id) || (
            undo.ranges.len() > 0 && lamport_timestamp.value < u32::MAX && self.lamport_clock.value
                < u32::MAX),
            _ => op.lamport_timestamp().value < u32::MAX && self.lamport_clock.value < u32::MAX,
        }
    }

    /// Applies an edit that was made at an earlier version.
    pub fn apply_remote_edit(
        &mut self,
        version: &Global,
        ranges: &Vec<Range<usize>>,
        new_text: Option<&str>,
        timestamp: InsertionTimestamp,
    )
        requires
            old(self).in_order(),
            ranges@.len() > 0 ==> {
                &&& remote_ok(
                    old(self)@.cells,
                    old(self)@.log,
                    version@,
                    lamport_of(timestamp),
                    pairs(ranges@),
                    text_bytes(new_text),
                )
                &&& timestamp.local < u32::MAX
                &&& timestamp.lamport < u32::MAX
                &&& old(self)@.lamport_clock.value < u32::MAX
            },
        ensures
            final(self).in_order(),
            old(self).wf() ==> all_seen(
                final(self)@.cells,
                observing(old(self)@.version, local_of(timestamp)),
            ),
            forall|edit: EditModel|
                edit.timestamp == timestamp && edit.version == version@ && edit.ranges == pairs(
                    ranges@,
                ) && bytes_of(edit.new_text) == text_bytes(new_text) ==> final(self)@
                    == #[trigger] remote_edit_applied(old(self)@, edit),
    {
        if ranges.len() == 0 {
            return;
        }
        let (fragments, visible_text, deleted_text) = remote_edit(
            &self.fragments,
            &self.visible_text,
            &self.deleted_text,
            &self.undo_map,
            version,
            ranges,
            new_text,
            timestamp,
        );
        proof {
            let v = version@;
            let lamport = lamport_of(timestamp);
            let bytes = text_bytes(new_text);
            let cells = self@.cells;
            let views = pairs(ranges@);
            let plan = remote_plan(cells, self.undo_map@, v, lamport, views);
            lemma_remote_plan(cells, self.undo_map@, v, lamport, views, bytes);
            lemma_in_sequence(plan, cells.len() as int);
            if self.wf() {
                lemma_edit_seen(cells, self@.version, plan, timestamp, bytes);
            }
        }
        self.fragments = fragments;
        self.visible_text = visible_text;
        self.deleted_text = deleted_text;
        self.local_clock.observe(timestamp.local());
        self.lamport_clock.observe(timestamp.lamport());
    }

    /// Applies an operation of another replica.
    pub fn apply_op(&mut self, op: Operation)
        requires
            old(self).wf(),
            op_fits(old(self)@, op@),
        ensures
            final(self).wf(),
            final(self)@ == applied(old(self)@, op@),
    {
        let ghost s = self@;
        let ghost model = op@;
        match op {
            Operation::Edit(edit) => {
                let id = edit.timestamp.local();
                if !self.version.observed(id) {
                    let text: Option<&str> = match &edit.new_text {
                        Some(text) => Some(text.as_str()),
                        None => None,
                    };
                    assert(text_bytes(text) == bytes_of(edit@.new_text));
                    self.apply_remote_edit(&edit.version, &edit.ranges, text, edit.timestamp);
                    assert(self@ == remote_edit_applied(s, edit@));
                    self.version.observe(id);
                    self.history.push(edit);
                    assert(self@ =~= applied(s, model));
                }
            },
            Operation::Undo { undo, lamport_timestamp } => {
                if !self.version.observed(undo.id) {
                    self.apply_undo(&undo);
                    self.version.observe(undo.id);
                    self.lamport_clock.observe(lamport_timestamp);
                    assert(self@ =~= applied(s, model));
                }
            },
            Operation::UpdateSelections { set_id, selections, lamport_timestamp } => {
                match selections {
                    Some(selections) => {
                        let active = match self.selections.get(set_id) {
                            Some(set) => set.active,
                            None => false,
                        };
                        self.selections.insert(set_id, SelectionSet { selections, active });
                    },
                    None => {
                        let _ = self.selections.remove(set_id);
                    },
                }
                self.lamport_clock.observe(lamport_timestamp);
                assert(self.doc() == old(self).doc());
                assert(self@ =~= applied(s, model));
            },
            Operation::SetActiveSelections { set_id, lamport_timestamp } => {
                self.selections.activate(lamport_timestamp.replica_id, set_id);
                self.lamport_clock.observe(lamport_timestamp);
                assert(self.doc() == old(self).doc());
                assert(self@ =~= applied(s, model));
            },
        }
    }

    /// Whether an operation of a replica is waiting.
    fn is_deferred(&self, replica_id: ReplicaId) -> (b: bool)
        ensures
            b == self@.deferred_replicas.contains(replica_id),
    {
        let mut i: usize = 0;
        while i < self.deferred_replicas.len()
            invariant
                i <= self.deferred_replicas@.len(),
                forall|j: int| 0 <= j < i ==> #[trigger] self.deferred_replicas@[j] != replica_id,
            decreases self.deferred_replicas@.len() - i,
        {
            if self.deferred_replicas[i] == replica_id {
                return true;
            }
            i = i + 1;
        }
        false
    }

    /// Whether everything that the selections refer to has been seen.
    fn knows_selections(&self, selections: &Vec<Selection>) -> (b: bool)
        ensures
            b == selections_known(self@.version, selection_models(selections@)),
    {
        let ghost models = selection_models(selections@);
        let mut i: usize = 0;
        while i < selections.len()
            invariant
                i <= selections@.len(),
                models == selection_models(selections@),
                forall|j: int|
                    0 <= j < i ==> includes(self@.version, (#[trigger] models[j]).start.version)
                        && includes(self@.version, models[j].end.version),
            decreases selections@.len() - i,
        {
            let selection = &selections[i];
            assert(models[i as int] == selection@);
            if !self.version.at_least(&selection.start.version) || !self.version.at_least(
                &selection.end.version,
            ) {
                return false;
            }
            i = i + 1;
        }
        true
    }

    /// Whether everything that an operation builds on is there, and no earlier
    /// operation of its replica is waiting.
    pub fn can_apply_op(&self, op: &Operation) -> (b: bool)
        ensures
            b == can_apply(self@, op@),
    {
        if self.is_deferred(op.replica_id()) {
            return false;
        }
        match op {
            Operation::Edit(edit) => self.version.at_least(&edit.version),
            Operation::Undo { undo, lamport_timestamp: _ } => self.version.at_least(&undo.version),
            Operation::UpdateSelections { set_id: _, selections, lamport_timestamp: _ } => {
                match selections {
                    Some(selections) => self.knows_selections(selections),
                    None => true,
                }
            },
            Operation::SetActiveSelections { set_id, lamport_timestamp: _ } => match set_id {
                Some(id) => self.selections.contains_key(*id),
                None => true,
            },
        }
    }

    /// Remembers that an operation of a replica is waiting.
    fn defer(&mut self, replica_id: ReplicaId)
        requires
            old(self).wf(),
        ensures
            final(self).wf(),
            final(self)@ == (State {
                deferred_replicas: old(self)@.deferred_replicas.insert(replica_id),
                ..old(self)@
            }),
    {
        let ghost before = self.deferred_replicas@;
        self.deferred_replicas.push(replica_id);
        proof {
            assert(self.doc() == old(self).doc());
            assert forall|r: ReplicaId| #[trigger] self.deferred_replicas@.contains(r)
                <==> before.contains(r) || r == replica_id by {
                if before.contains(r) {
                    let i = before.index_of(r);
                    assert(self.deferred_replicas@[i] == r);
                }
                assert(self.deferred_replicas@[before.len() as int] == replica_id);
            }
            assert(self@.deferred_replicas =~= old(self)@.deferred_replicas.insert(replica_id));
        }
    }

    /// Applies each operation that can be applied, and returns those that have
    /// to wait; an error if one of them does not fit.
    fn run(&mut self, ops: Vec<Operation>) -> (result: Result<Vec<Operation>, Error>)
        requires
            old(self).wf(),
        ensures
            final(self).wf(),
            ({
                let models = operation_models(ops@);
                let run = run_ops(old(self)@, models, models.len() as int);
                &&& final(self)@ == run.state
                &&& match result {
                    Ok(waiting) => !run.failed && operation_models(waiting@) == run.waiting,
                    Err(error) => run.failed && error == Error::InvalidOperation,
                }
            }),
    {
        let ghost s = self@;
        let ghost models = operation_models(ops@);
        let mut rest = ops;
        let mut waiting: Vec<Operation> = Vec::new();
        let ghost mut n: int = 0;
        assert(operation_models(waiting@) =~= Seq::<OperationModel>::empty());
        while rest.len() > 0
            invariant
                0 <= n <= models.len(),
                self.wf(),
                s == old(self)@,
                models == operation_models(ops@),
                operation_models(rest@) =~= models.skip(n),
                run_ops(s, models, n) == (Run {
                    state: self@,
                    waiting: operation_models(waiting@),
                    failed: false,
                }),
            decreases rest@.len(),
        {
            let ghost before = rest@;
            assert(operation_models(before).len() == models.skip(n).len());
            let op = rest.remove(0);
            let ghost model = op@;
            proof {
                assert(op == before[0]);
                assert(operation_models(before)[0] == before[0]@);
                assert(models.skip(n)[0] == models[n]);
                assert(operation_models(before) == models.skip(n));
                assert(model == models[n]);
                assert(operation_models(rest@) =~= operation_models(before).skip(1));
            }
            if self.can_apply_op(&op) {
                if !self.is_valid_op(&op) {
                    proof {
                        lemma_failed(s, models, n + 1, models.len() as int);
                    }
                    return Err(Error::InvalidOperation);
                }
                self.apply_op(op);
            } else {
                self.defer(op.replica_id());
                let ghost held = waiting@;
                waiting.push(op);
                assert(operation_models(waiting@) =~= operation_models(held).push(model));
            }
            proof {
                n = n + 1;
            }
        }
        assert(n == models.len()) by {
            assert(models.skip(n).len() == 0);
        }
        Ok(waiting)
    }

    /// Tries the waiting operations again.
    pub fn flush_deferred_ops(&mut self) -> (result: Result<(), Error>)
        requires
            old(self).wf(),
        ensures
            final(self).wf(),
            final(self)@ == flushed(old(self)@),
            match result {
                Ok(()) => !flush_run(old(self)@).failed,
                Err(error) => flush_run(old(self)@).failed && error == Error::InvalidOperation,
            },
    {
        self.deferred_replicas.clear();
        let ops = self.deferred_ops.drain();
        proof {
            assert(self.doc() == old(self).doc());
            assert(self.deferred_replicas@.to_set() =~= Set::empty());
            assert(self@ =~= (State {
                deferred_replicas: Set::empty(),
                deferred_ops: Seq::empty(),
                ..old(self)@
            }));
        }
        match self.run(ops) {
            Ok(waiting) => {
                let ghost ran = self@;
                let ghost doc = self.doc();
                self.deferred_ops.insert(waiting);
                assert(self.doc() == doc);
                assert(self@ =~= flushed(old(self)@));
                Ok(())
            },
            Err(error) => Err(error),
        }
    }

    /// Applies operations of other replicas. Those that build on something that
    /// is not there yet wait for it; an operation that names places that are
    /// not there is an error.
    pub fn apply_ops(&mut self, ops: Vec<Operation>, cx: &mut ModelContext) -> (result: Result<
        (),
        Error,
    >)
        requires
            old(self).wf(),
        ensures
            final(self).wf(),
            final(cx).same_place(old(cx)),
            final(self)@ == ops_applied(old(self)@, operation_models(ops@)),
            final(cx)@ == old(cx)@ + ops_effects(old(self)@, operation_models(ops@)),
            match result {
                Ok(()) => !ops_fail(old(self)@, operation_models(ops@)),
                Err(error) => ops_fail(old(self)@, operation_models(ops@)) && error
                    == Error::InvalidOperation,
            },
    {
        let ghost s = self@;
        let ghost models = operation_models(ops@);
        let was_dirty = self.is_dirty();
        let old_version = self.version.clone();
        self.pending_autoindent = false;
        assert(self.doc() == old(self).doc());
        assert(self@ =~= (State { pending_autoindent: false, ..s }));
        match self.run(ops) {
            Ok(waiting) => {
                let ghost doc = self.doc();
                let ghost ran = first_run(s, models);
                self.deferred_ops.insert(waiting);
                assert(self.doc() == doc);
                assert(self@ =~= run_queued(ran));
                match self.flush_deferred_ops() {
                    Ok(()) => {
                        self.report_changes(old_version, was_dirty, cx);
                        Ok(())
                    },
                    Err(error) => {
                        assert(old(cx)@ + Seq::<EffectModel>::empty() =~= old(cx)@);
                        Err(error)
                    },
                }
            },
            Err(error) => {
                assert(old(cx)@ + Seq::<EffectModel>::empty() =~= old(cx)@);
                Err(error)
            },
        }
    }
}

/// Once an operation has not fitted, nothing more happens.
proof fn lemma_failed(s: State, ops: Seq<OperationModel>, n: int, m: int)
    requires
        0 <= n <= m,
        run_ops(s, ops, n).failed,
    ensures
        run_ops(s, ops, m) == run_ops(s, ops, n),
    decreases m,
{
    if n < m {
        lemma_failed(s, ops, n, m - 1);
    }
}

} // verus!
