//! Editing a buffer, and undoing what was done to it.

use std::ops::Range;
use std::sync::Arc;

use vstd::prelude::*;
use vstd::utf8::*;

use crate::buffer::Buffer;
use crate::clock::{Global, observing};
use crate::content::{ToOffset, ToPoint, entry_for, line_len_of};
use crate::context::{Effect, EffectModel, Event, ModelContext};
use crate::document::{Cell, all_seen, visible_rank, visible_text};
use crate::edit_laws::lemma_visible_part;
use crate::error::Error;
use crate::fragment::{InsertionTimestamp, local_of};
use crate::history::{Transaction, kept_models, plus, saturating_plus};
use crate::indent::AutoindentRequest;
use crate::local::{full_ranges, lemma_visible_at, local_edit};
use crate::local_map::LocalMap;
use crate::operation::{
    EditOperation, Operation, OperationModel, Selection, SelectionSetId, UndoOperation, bytes_of,
    chars_of, clone_selections,
};
use crate::remote::{pairs, text_bytes};
use crate::rope::{Bias, NEWLINE, line_end, point_at};
use crate::snapshot::Snapshot;
use crate::state::{
    State, change_effects, changed, coalesced, edit_applied, edit_effects, edit_events,
    edit_operation, edited_within, ended, ended_effects, interpolated, kept_of, names_set,
    next_counts, prepared, redone_once, redone_once_effects, reparse_effects, restored,
    restored_effects, send_effects, snapshot_of, started, undo_effects, undo_of, undo_state,
    undone_once, undone_once_effects, undone_or_redone,
};
use crate::undo::{Undo, undo_edits};
use crate::undo_laws::{lemma_edit_seen, lemma_local_places};
use crate::weave::{cuttable, edited, local_ok, local_plan, separated, visible_at};

verus! {

/// The offsets of ranges in a text.
pub open spec fn offsets_of<S: ToOffset>(ranges: Seq<Range<S>>, cells: Seq<Cell>) -> Seq<(int, int)> {
    ranges.map_values(|r: Range<S>| (r.start.offset_in(cells), r.end.offset_in(cells)))
}

/// A range of the text whose ends lie between characters.
pub open spec fn good_range(text: Seq<u8>, range: (int, int)) -> bool {
    &&& 0 <= range.0 <= range.1 <= text.len()
    &&& is_char_boundary(text, range.0)
    &&& is_char_boundary(text, range.1)
}

/// Ranges of the text whose ends lie between characters.
pub open spec fn good_ranges(text: Seq<u8>, ranges: Seq<(int, int)>) -> bool {
    forall|i: int| 0 <= i < ranges.len() ==> good_range(text, #[trigger] ranges[i])
}

/// The ranges name places of the text.
pub open spec fn names_ranges<S: ToOffset>(ranges: Seq<Range<S>>, cells: Seq<Cell>) -> bool {
    forall|i: int|
        0 <= i < ranges.len() ==> (#[trigger] ranges[i]).start.names_place(cells)
            && ranges[i].end.names_place(cells)
}

/// Joined ranges are in order, and their ends lie between characters.
pub proof fn lemma_coalesced(text: Seq<u8>, ranges: Seq<(int, int)>, inserts: bool, n: int)
    requires
        0 <= n <= ranges.len(),
        good_ranges(text, ranges),
    ensures
        good_ranges(text, coalesced(ranges, inserts, n)),
        separated(coalesced(ranges, inserts, n)),
    decreases n,
{
    if n > 0 {
        lemma_coalesced(text, ranges, inserts, n - 1);
        let found = coalesced(ranges, inserts, n - 1);
        let result = coalesced(ranges, inserts, n);
        assert(good_range(text, ranges[n - 1]));
        if found.len() > 0 {
            assert(good_range(text, found[found.len() - 1]));
        }
        assert forall|i: int| 0 <= i < result.len() implies good_range(
            text,
            #[trigger] result[i],
        ) by {
            if i < found.len() {
                assert(good_range(text, found[i]));
            }
        }
        assert forall|j: int, k: int| 0 <= j < k < result.len() implies (#[trigger] result[j]).1 < (
        #[trigger] result[k]).0 by {
            if k < found.len() {
                assert(found[j].1 < found[k].0);
            } else if j < found.len() - 1 {
                assert(found[j].1 < found[found.len() - 1].0);
            }
        }
        assert forall|k: int| 0 <= k < result.len() implies 0 <= (#[trigger] result[k]).0
            <= result[k].1 by {
            assert(good_range(text, result[k]));
        }
    }
}

/// Each of the joined ranges ends before the next one starts.
proof fn lemma_joined_apart(ranges: Seq<(int, int)>, inserts: bool, n: int)
    requires
        0 <= n <= ranges.len(),
    ensures
        forall|k: int|
            #![trigger coalesced(ranges, inserts, n)[k]]
            0 < k < coalesced(ranges, inserts, n).len() ==> coalesced(ranges, inserts, n)[k - 1].1
                < coalesced(ranges, inserts, n)[k].0,
    decreases n,
{
    if n > 0 {
        lemma_joined_apart(ranges, inserts, n - 1);
        let found = coalesced(ranges, inserts, n - 1);
        let result = coalesced(ranges, inserts, n);
        assert forall|k: int|
            #![trigger result[k]]
            0 < k < result.len() implies result[k - 1].1 < result[k].0 by {
            if k < found.len() {
                assert(found[k - 1].1 < found[k].0);
            }
        }
    }
}

/// Joined ranges of the text are in order.
proof fn lemma_joined_separated(text: Seq<u8>, joined: Seq<(int, int)>, n: int)
    requires
        0 <= n <= joined.len(),
        good_ranges(text, joined),
        forall|k: int|
            #![trigger joined[k]]
            0 < k < joined.len() ==> joined[k - 1].1 < joined[k].0,
    ensures
        forall|j: int, k: int|
            0 <= j < k < n ==> (#[trigger] joined[j]).1 < (#[trigger] joined[k]).0,
    decreases n,
{
    if n > 0 {
        lemma_joined_separated(text, joined, n - 1);
        assert forall|j: int, k: int| 0 <= j < k < n implies (#[trigger] joined[j]).1 < (
        #[trigger] joined[k]).0 by {
            if k == n - 1 {
                assert(joined[k - 1].1 < joined[k].0);
                assert(good_range(text, joined[k - 1]));
                if j < k - 1 {
                    assert(joined[j].1 < joined[k - 1].0);
                }
            }
        }
    }
}

/// A place between characters can be cut.
proof fn lemma_cuttable(cells: Seq<Cell>, x: int)
    requires
        valid_utf8(visible_text(cells)),
        0 <= x <= visible_text(cells).len(),
        is_char_boundary(visible_text(cells), x),
    ensures
        cuttable(cells, visible_at(cells, x)),
{
    let text = visible_text(cells);
    lemma_visible_part(cells, 0, cells.len() as int);
    lemma_visible_at(cells, x);
    let p = visible_at(cells, x);
    if p < cells.len() {
        lemma_visible_part(cells, p, p + 1);
        let one = cells.subrange(p, p + 1);
        assert(one.drop_last() =~= Seq::<Cell>::empty());
        assert(visible_text(one) =~= seq![cells[p].byte]);
        assert(text.subrange(x, x + 1)[0] == text[x]);
        is_char_boundary_iff_not_is_continuation_byte(text, x);
    }
}

/// Joined ranges of the text can be edited, if there is room.
pub proof fn lemma_editable(
    cells: Seq<Cell>,
    ranges: Seq<(int, int)>,
    inserts: bool,
    new_bytes: Seq<u8>,
)
    requires
        valid_utf8(visible_text(cells)),
        good_ranges(visible_text(cells), coalesced(ranges, inserts, ranges.len() as int)),
        cells.len() + coalesced(ranges, inserts, ranges.len() as int).len() * new_bytes.len()
            < usize::MAX,
    ensures
        local_ok(cells, coalesced(ranges, inserts, ranges.len() as int), new_bytes),
{
    let text = visible_text(cells);
    let joined = coalesced(ranges, inserts, ranges.len() as int);
    lemma_joined_apart(ranges, inserts, ranges.len() as int);
    lemma_joined_separated(text, joined, joined.len() as int);
    lemma_visible_part(cells, 0, cells.len() as int);
    assert forall|k: int| 0 <= k < joined.len() implies 0 <= (#[trigger] joined[k]).0
        <= joined[k].1 by {
        assert(good_range(text, joined[k]));
    }
    assert forall|k: int| 0 <= k < joined.len() implies (#[trigger] joined[k]).1 <= visible_rank(
        cells,
        cells.len() as int,
    ) && cuttable(cells, visible_at(cells, joined[k].0)) && cuttable(
        cells,
        visible_at(cells, joined[k].1),
    ) by {
        assert(good_range(text, joined[k]));
        lemma_cuttable(cells, joined[k].0);
        lemma_cuttable(cells, joined[k].1);
    }
}

/// The text starts a new line at the end of a line: the line it was inserted on
/// is not to be indented.
pub open spec fn leaves_line(text: Seq<u8>, new_bytes: Seq<u8>, offset: int) -> bool {
    &&& new_bytes.len() > 0
    &&& new_bytes[0] == NEWLINE
    &&& point_at(text, offset).column == line_len_of(text, point_at(text, offset).row as int)
}

/// The places of the first `n` ranges whose lines are to be indented.
pub open spec fn edited_places(
    text: Seq<u8>,
    new_bytes: Seq<u8>,
    ranges: Seq<(int, int)>,
    n: int,
) -> Seq<(usize, Bias)>
    decreases n,
{
    if n <= 0 {
        Seq::empty()
    } else {
        let found = edited_places(text, new_bytes, ranges, n - 1);
        if leaves_line(text, new_bytes, ranges[n - 1].0) {
            found
        } else {
            found.push((ranges[n - 1].0 as usize, Bias::Left))
        }
    }
}

/// How far the first `n` ranges are taken to have moved the next one.
pub open spec fn moved_by(ranges: Seq<(int, int)>, new_len: int, n: int) -> int
    decreases n,
{
    if n <= 0 {
        0
    } else {
        plus(
            moved_by(ranges, new_len, n - 1),
            plus(ranges[n - 1].1 - ranges[n - 1].0, new_len),
        )
    }
}

/// What was inserted for range `k` after its first line feed, which stands at
/// `newline` in the text.
pub open spec fn inserted_place(
    ranges: Seq<(int, int)>,
    newline: int,
    new_len: int,
    k: int,
) -> ((usize, Bias), (usize, Bias)) {
    let start = plus(moved_by(ranges, new_len, k), ranges[k].0);
    (
        (plus(start, newline + 1) as usize, Bias::Left),
        (plus(start, new_len) as usize, Bias::Right),
    )
}

/// The request for indentation after an edit that led from `before` to the
/// cells `after`, at version `version`.
pub open spec fn request_for(
    request: AutoindentRequest,
    before: State,
    after: State,
    ranges: Seq<(int, int)>,
    new_bytes: Seq<u8>,
) -> bool {
    let places = edited_places(before.text(), new_bytes, ranges, ranges.len() as int);
    let newline = line_end(new_bytes, 0);
    &&& request.wf()
    &&& request.before_edit@ == snapshot_of(before)
    &&& request.edited.0.version@ == before.version
    &&& request.edited.0.entries@.len() == places.len()
    &&& forall|i: int|
        0 <= i < places.len() ==> ((#[trigger] request.edited.0.entries@[i]).0.0 as int,
            request.edited.0.entries@[i].0.1) == entry_for(before.cells, places[i])
    &&& match request.inserted {
        Some(set) => {
            &&& newline < new_bytes.len()
            &&& set.0.version@ == after.version
            &&& set.0.entries@.len() == ranges.len()
            &&& forall|i: int|
                0 <= i < ranges.len() ==> {
                    let entry = (#[trigger] set.0.entries@[i]).0;
                    let place = inserted_place(ranges, newline, new_bytes.len() as int, i);
                    &&& (entry.start.0 as int, entry.start.1) == entry_for(after.cells, place.0)
                    &&& (entry.end.0 as int, entry.end.1) == entry_for(after.cells, place.1)
                }
        },
        None => newline == new_bytes.len(),
    }
}

/// The requests for indentation after an edit.
pub open spec fn requests_after(
    requests: Seq<Arc<AutoindentRequest>>,
    before: State,
    ranges: Seq<(int, int)>,
    text: Seq<char>,
    autoindent: bool,
) -> bool {
    if autoindent && before.language is Some && ranges.len() > 0 {
        &&& requests.len() == before.requests.len() + 1
        &&& requests.drop_last() == before.requests
        &&& request_for(
            *requests.last(),
            before,
            edited_within(before, ranges, text),
            ranges,
            encode_utf8(text),
        )
    } else {
        requests == before.requests
    }
}

impl Buffer {
    /// The selections of a set, to be kept with a transaction.
    fn keep_selections(&self, set_id: Option<SelectionSetId>) -> (kept: Result<
        Option<(SelectionSetId, Vec<Selection>)>,
        Error,
    >)
        ensures
            match kept {
                Ok(kept) => names_set(self@, set_id) && kept_models(kept) == kept_of(self@, set_id),
                Err(error) => {
                    &&& !names_set(self@, set_id)
                    &&& error == Error::InvalidSelectionSet(set_id->0)
                },
            },
    {
        match set_id {
            Some(id) => match self.selections.get(id) {
                Some(set) => Ok(Some((id, clone_selections(&set.selections)))),
                None => Err(Error::InvalidSelectionSet(id)),
            },
            None => Ok(None),
        }
    }

    /// Starts a transaction: what is done until it is ended is undone and
    /// redone together.
    pub fn start_transaction(&mut self, set_id: Option<SelectionSetId>, cx: &ModelContext) -> (result:
        Result<(), Error>)
        requires
            old(self).wf(),
            old(self)@.history.depth < usize::MAX,
        ensures
            final(self).wf(),
            match result {
                Ok(()) => names_set(old(self)@, set_id) && final(self)@ == started(
                    old(self)@,
                    set_id,
                    cx.now,
                ),
                Err(error) => {
                    &&& !names_set(old(self)@, set_id)
                    &&& error == Error::InvalidSelectionSet(set_id->0)
                    &&& final(self)@ == old(self)@
                },
            },
    {
        self.start_transaction_at(set_id, cx.now)
    }

    /// Starts a transaction at a given time.
    pub fn start_transaction_at(&mut self, set_id: Option<SelectionSetId>, now: u64) -> (result:
        Result<(), Error>)
        requires
            old(self).wf(),
            old(self)@.history.depth < usize::MAX,
        ensures
            final(self).wf(),
            match result {
                Ok(()) => names_set(old(self)@, set_id) && final(self)@ == started(
                    old(self)@,
                    set_id,
                    now,
                ),
                Err(error) => {
                    &&& !names_set(old(self)@, set_id)
                    &&& error == Error::InvalidSelectionSet(set_id->0)
                    &&& final(self)@ == old(self)@
                },
            },
    {
        match self.keep_selections(set_id) {
            Ok(selections) => {
                let version = self.version.clone();
                let dirty = self.is_dirty();
                self.history.start_transaction(version, dirty, selections, now);
                assert(self.doc() == old(self).doc());
                Ok(())
            },
            Err(error) => Err(error),
        }
    }

    /// Ends a transaction.
    pub fn end_transaction(&mut self, set_id: Option<SelectionSetId>, cx: &mut ModelContext) -> (result:
        Result<(), Error>)
        requires
            old(self).wf(),
            old(self)@.history.depth > 0,
        ensures
            final(self).wf(),
            final(cx).same_place(old(cx)),
            match result {
                Ok(()) => {
                    &&& names_set(old(self)@, set_id)
                    &&& final(self)@ == ended(old(self)@, set_id, old(cx).now)
                    &&& final(cx)@ == old(cx)@ + ended_effects(old(self)@, set_id, old(cx).now)
                },
                Err(error) => {
                    &&& !names_set(old(self)@, set_id)
                    &&& error == Error::InvalidSelectionSet(set_id->0)
                    &&& final(self)@ == old(self)@
                    &&& final(cx)@ == old(cx)@
                },
            },
    {
        let now = cx.now;
        self.end_transaction_at(set_id, now, cx)
    }

    /// Ends a transaction at a given time. Leaving it for the last time reports
    /// what has changed.
    pub fn end_transaction_at(
        &mut self,
        set_id: Option<SelectionSetId>,
        now: u64,
        cx: &mut ModelContext,
    ) -> (result: Result<(), Error>)
        requires
            old(self).wf(),
            old(self)@.history.depth > 0,
        ensures
            final(self).wf(),
            final(cx).same_place(old(cx)),
            match result {
                Ok(()) => {
                    &&& names_set(old(self)@, set_id)
                    &&& final(self)@ == ended(old(self)@, set_id, now)
                    &&& final(cx)@ == old(cx)@ + ended_effects(old(self)@, set_id, now)
                },
                Err(error) => {
                    &&& !names_set(old(self)@, set_id)
                    &&& error == Error::InvalidSelectionSet(set_id->0)
                    &&& final(self)@ == old(self)@
                    &&& final(cx)@ == old(cx)@
                },
            },
    {
        match self.keep_selections(set_id) {
            Ok(selections) => {
                let ended = self.history.end_transaction(selections, now);
                assert(self.doc() == old(self).doc());
                match ended {
                    Some(transaction) => {
                        let since = transaction.start.clone();
                        let was_dirty = transaction.buffer_was_dirty;
                        self.history.group();
                        assert(self.doc() == old(self).doc());
                        self.report_changes(since, was_dirty, cx);
                    },
                    None => {
                        assert(old(cx)@ + Seq::<EffectModel>::empty() =~= old(cx)@);
                    },
                }
                Ok(())
            },
            Err(error) => Err(error),
        }
    }

    /// Reports what has changed since a version, and has the text parsed anew
    /// if anything has.
    pub(crate) fn report_changes(&mut self, since: Global, was_dirty: bool, cx: &mut ModelContext)
        requires
            old(self).wf(),
        ensures
            final(self).wf(),
            final(self)@ == changed(old(self)@, since@),
            final(cx)@ == old(cx)@ + change_effects(old(self)@, since@, was_dirty),
            final(cx).same_place(old(cx)),
    {
        let ghost start = cx@;
        let ghost v = since@;
        cx.notify();
        if self.has_changed_since(since) {
            self.did_edit(was_dirty, cx);
            self.reparse(cx);
            proof {
                let events = edit_events(was_dirty);
                let parse = reparse_effects(old(self)@);
                assert(start.push(EffectModel::Notify) + events + parse =~= start + (seq![
                    EffectModel::Notify,
                ] + (events + parse)));
            }
        } else {
            assert(start.push(EffectModel::Notify) =~= start + (seq![EffectModel::Notify]
                + Seq::<EffectModel>::empty()));
        }
    }

    /// Reports an edit.
    pub fn did_edit(&self, was_dirty: bool, cx: &mut ModelContext)
        ensures
            final(cx)@ == old(cx)@ + edit_events(was_dirty),
            final(cx).same_place(old(cx)),
    {
        cx.emit(Event::Edited);
        if !was_dirty {
            cx.emit(Event::Dirtied);
        }
        assert(cx@ =~= old(cx)@ + edit_events(was_dirty));
    }

    /// Tells the other replicas of an operation, if there is a file.
    pub fn send_operation(&mut self, operation: Operation, cx: &mut ModelContext)
        ensures
            *final(self) == *old(self),
            final(cx)@ == old(cx)@ + send_effects(old(self)@, operation@),
            final(cx).same_place(old(cx)),
    {
        let ghost model = operation@;
        if self.file.is_some() {
            cx.push(Effect::Send(operation));
        }
        assert(cx@ =~= old(cx)@ + send_effects(old(self)@, model));
    }

    /// Applies an edit of the visible text, and returns the operation that
    /// stands for it.
    pub fn apply_local_edit(
        &mut self,
        ranges: &Vec<Range<usize>>,
        new_text: Option<String>,
        timestamp: InsertionTimestamp,
    ) -> (edit: EditOperation)
        requires
            old(self).in_order(),
            local_ok(old(self)@.cells, pairs(ranges@), bytes_of(chars_of(new_text))),
        ensures
            final(self).in_order(),
            old(self).wf() ==> all_seen(
                final(self)@.cells,
                observing(old(self)@.version, local_of(timestamp)),
            ),
            final(self)@ == (State {
                cells: edited(
                    old(self)@.cells,
                    local_plan(old(self)@.cells, pairs(ranges@)),
                    timestamp,
                    bytes_of(chars_of(new_text)),
                ),
                ..old(self)@
            }),
            edit@.timestamp == timestamp,
            edit@.version == old(self)@.version,
            edit@.ranges == full_ranges(old(self)@.cells, pairs(ranges@)),
            edit@.new_text == chars_of(new_text),
    {
        let text: Option<&str> = match &new_text {
            Some(text) => Some(text.as_str()),
            None => None,
        };
        proof {
            assert(text_bytes(text) == bytes_of(chars_of(new_text)));
        }
        let (parts, full) = local_edit(
            &self.fragments,
            &self.visible_text,
            &self.deleted_text,
            &self.version,
            ranges,
            text,
            timestamp,
        );
        let (fragments, visible_text, deleted_text) = parts;
        proof {
            let bytes = bytes_of(chars_of(new_text));
            let cells = self@.cells;
            lemma_local_places(cells, pairs(ranges@), bytes);
            if self.wf() {
                let plan = local_plan(cells, pairs(ranges@));
                lemma_edit_seen(cells, self@.version, plan, timestamp, bytes);
            }
        }
        self.fragments = fragments;
        self.visible_text = visible_text;
        self.deleted_text = deleted_text;
        EditOperation { timestamp, version: self.version.clone(), ranges: full, new_text }
    }

    /// The ranges of an edit, those that do nothing left out and those that
    /// touch joined.
    fn coalesce<S: ToOffset>(&self, ranges: &Vec<Range<S>>, inserts: bool) -> (joined: Vec<
        Range<usize>,
    >)
        requires
            self.wf(),
            names_ranges(ranges@, self@.cells),
        ensures
            pairs(joined@) == coalesced(
                offsets_of(ranges@, self@.cells),
                inserts,
                ranges@.len() as int,
            ),
    {
        let content = self.content();
        let ghost offsets = offsets_of(ranges@, self@.cells);
        let mut joined: Vec<Range<usize>> = Vec::new();
        let mut i: usize = 0;
        assert(pairs(joined@) =~= Seq::<(int, int)>::empty());
        while i < ranges.len()
            invariant
                i <= ranges@.len(),
                self.wf(),
                content.doc() == self.doc(),
                content.version@ == self.version@,
                names_ranges(ranges@, self@.cells),
                offsets == offsets_of(ranges@, self@.cells),
                pairs(joined@) == coalesced(offsets, inserts, i as int),
            decreases ranges@.len() - i,
        {
            let start = ranges[i].start.to_offset(&content);
            let end = ranges[i].end.to_offset(&content);
            let ghost before = pairs(joined@);
            assert(offsets[i as int] == (start as int, end as int));
            if inserts || start < end {
                let len = joined.len();
                if len > 0 && joined[len - 1].end >= start {
                    assert(before.last() == (
                        joined@[len - 1].start as int,
                        joined@[len - 1].end as int,
                    ));
                    let first = joined[len - 1].start;
                    let last = joined[len - 1].end;
                    let last = if last > end {
                        last
                    } else {
                        end
                    };
                    joined.set(len - 1, first..last);
                    assert(pairs(joined@) =~= before.update(
                        len - 1,
                        (first as int, last as int),
                    ));
                } else {
                    if len > 0 {
                        assert(before.last() == (
                            joined@[len - 1].start as int,
                            joined@[len - 1].end as int,
                        ));
                    }
                    joined.push(start..end);
                    assert(pairs(joined@) =~= before.push((start as int, end as int)));
                }
            }
            i = i + 1;
        }
        joined
    }

    /// The places whose lines are to be indented after an edit.
    fn places_to_indent(&self, ranges: &Vec<Range<usize>>, new_text: &str) -> (places: Vec<
        (usize, Bias),
    >)
        requires
            self.wf(),
            good_ranges(self@.text(), pairs(ranges@)),
        ensures
            places@ == edited_places(
                self@.text(),
                encode_utf8(new_text@),
                pairs(ranges@),
                ranges@.len() as int,
            ),
    {
        let content = self.content();
        let bytes = new_text.as_bytes();
        let starts_line = bytes.len() > 0 && bytes[0] == NEWLINE;
        let mut places: Vec<(usize, Bias)> = Vec::new();
        let mut i: usize = 0;
        proof {
            self.lemma_text();
        }
        while i < ranges.len()
            invariant
                i <= ranges@.len(),
                self.wf(),
                self@.text() == self.visible_text@,
                content.doc() == self.doc(),
                content.version@ == self.version@,
                bytes@ == encode_utf8(new_text@),
                starts_line == (bytes@.len() > 0 && bytes@[0] == NEWLINE),
                good_ranges(self@.text(), pairs(ranges@)),
                places@ == edited_places(
                    self@.text(),
                    bytes@,
                    pairs(ranges@),
                    i as int,
                ),
            decreases ranges@.len() - i,
        {
            let offset = ranges[i].start;
            assert(pairs(ranges@)[i as int].0 == offset);
            assert(good_range(self@.text(), pairs(ranges@)[i as int]));
            let start = self.visible_text.to_point(offset);
            if !(starts_line && start.column == content.line_len(start.row)) {
                places.push((offset, Bias::Left));
            }
            i = i + 1;
        }
        places
    }

    /// What an edit inserted after the first line feed of its text.
    fn inserted_places(ranges: &Vec<Range<usize>>, newline: usize, new_len: usize) -> (places: Vec<
        Range<(usize, Bias)>,
    >)
        requires
            newline < new_len,
            forall|i: int| 0 <= i < ranges@.len() ==> (#[trigger] ranges@[i]).start
                <= ranges@[i].end,
        ensures
            places@.len() == ranges@.len(),
            forall|i: int|
                0 <= i < ranges@.len() ==> {
                    let place = inserted_place(
                        pairs(ranges@),
                        newline as int,
                        new_len as int,
                        i,
                    );
                    (#[trigger] places@[i]).start == place.0 && places@[i].end == place.1
                },
    {
        let ghost views = pairs(ranges@);
        let mut places: Vec<Range<(usize, Bias)>> = Vec::new();
        let mut delta: usize = 0;
        let mut i: usize = 0;
        while i < ranges.len()
            invariant
                i <= ranges@.len(),
                newline < new_len,
                views == pairs(ranges@),
                forall|j: int| 0 <= j < ranges@.len() ==> (#[trigger] ranges@[j]).start
                    <= ranges@[j].end,
                delta == moved_by(views, new_len as int, i as int),
                places@.len() == i,
                forall|j: int|
                    0 <= j < i ==> {
                        let place = inserted_place(views, newline as int, new_len as int, j);
                        (#[trigger] places@[j]).start == place.0 && places@[j].end == place.1
                    },
            decreases ranges@.len() - i,
        {
            let range_start = ranges[i].start;
            let range_end = ranges[i].end;
            assert(views[i as int] == (range_start as int, range_end as int));
            let base = saturating_plus(delta, range_start);
            let start = saturating_plus(base, newline + 1);
            let end = saturating_plus(base, new_len);
            places.push((start, Bias::Left)..(end, Bias::Right));
            delta = saturating_plus(delta, saturating_plus(range_end - range_start, new_len));
            i = i + 1;
        }
        places
    }

    /// Files a request for indentation after an edit, if there is one: the
    /// text before it, and the places whose lines are to be indented.
    fn finish_request(
        &mut self,
        request: Option<(Snapshot, crate::content::AnchorSet)>,
        ranges: &Vec<Range<usize>>,
        new_text: &str,
        Ghost(before): Ghost<State>,
    )
        requires
            old(self).wf(),
            forall|i: int| 0 <= i < ranges@.len() ==> (#[trigger] ranges@[i]).start
                <= ranges@[i].end,
            match request {
                Some(pair) => {
                    let places = edited_places(
                        before.text(),
                        encode_utf8(new_text@),
                        pairs(ranges@),
                        ranges@.len() as int,
                    );
                    &&& pair.0.wf()
                    &&& pair.0@ == snapshot_of(before)
                    &&& pair.1.0.version@ == before.version
                    &&& pair.1.0.entries@.len() == places.len()
                    &&& forall|i: int|
                        0 <= i < places.len() ==> ((#[trigger] pair.1.0.entries@[i]).0.0 as int,
                            pair.1.0.entries@[i].0.1) == entry_for(before.cells, places[i])
                },
                None => true,
            },
        ensures
            final(self).wf(),
            final(self)@ == (State { requests: final(self)@.requests, ..old(self)@ }),
            request is None ==> final(self)@.requests == old(self)@.requests,
            request is Some ==> {
                let requests = final(self)@.requests;
                &&& requests.len() == old(self)@.requests.len() + 1
                &&& requests.drop_last() == old(self)@.requests
                &&& request_for(
                    *requests.last(),
                    before,
                    old(self)@,
                    pairs(ranges@),
                    encode_utf8(new_text@),
                )
            },
    {
        match request {
            Some((before_edit, edited)) => {
                let bytes = new_text.as_bytes();
                let new_len = bytes.len();
                let mut newline: usize = 0;
                while newline < new_len && bytes[newline] != NEWLINE
                    invariant
                        newline <= new_len,
                        new_len == bytes@.len(),
                        line_end(bytes@, newline as int) == line_end(bytes@, 0),
                    decreases new_len - newline,
                {
                    newline = newline + 1;
                }
                let inserted = if newline < new_len {
                    let places = Buffer::inserted_places(ranges, newline, new_len);
                    Some(self.content().anchor_range_set(&places))
                } else {
                    None
                };
                let request = AutoindentRequest { before_edit, edited, inserted };
                let ghost made = request;
                self.autoindent_requests.push(Arc::new(request));
                proof {
                    assert(self.doc() == old(self).doc());
                    let requests = self@.requests;
                    assert(requests.drop_last() =~= old(self)@.requests);
                    assert(*requests.last() == made);
                }
            },
            None => {},
        }
    }

    /// Replaces ranges of the visible text.
    pub fn edit<S: ToOffset>(
        &mut self,
        ranges: &Vec<Range<S>>,
        new_text: &str,
        cx: &mut ModelContext,
    )
        requires
            old(self).wf(),
            names_ranges(ranges@, old(self)@.cells),
            edit_has_room(old(self)@, offsets_of(ranges@, old(self)@.cells), new_text@),
        ensures
            final(self).wf(),
            final(cx).same_place(old(cx)),
            ({
                let s = old(self)@;
                let joined = joined_ranges(offsets_of(ranges@, s.cells), new_text@);
                &&& final(self)@ == edit_applied(s, joined, new_text@, old(cx).now, s.requests)
                &&& final(cx)@ == old(cx)@ + edit_effects(
                    s,
                    joined,
                    new_text@,
                    old(cx).now,
                    s.requests,
                )
            }),
    {
        self.edit_internal(ranges, new_text, false, cx)
    }

    /// Replaces ranges of the visible text, and has the lines indented.
    pub fn edit_with_autoindent<S: ToOffset>(
        &mut self,
        ranges: &Vec<Range<S>>,
        new_text: &str,
        cx: &mut ModelContext,
    )
        requires
            old(self).wf(),
            names_ranges(ranges@, old(self)@.cells),
            edit_has_room(old(self)@, offsets_of(ranges@, old(self)@.cells), new_text@),
        ensures
            final(self).wf(),
            final(cx).same_place(old(cx)),
            ({
                let s = old(self)@;
                let joined = joined_ranges(offsets_of(ranges@, s.cells), new_text@);
                let begun = prepared(s, joined, true);
                let requests = final(self)@.requests;
                &&& final(self)@ == edit_applied(begun, joined, new_text@, old(cx).now, requests)
                &&& final(cx)@ == old(cx)@ + edit_effects(
                    begun,
                    joined,
                    new_text@,
                    old(cx).now,
                    requests,
                )
                &&& requests_after(requests, s, joined, new_text@, true)
            }),
    {
        self.edit_internal(ranges, new_text, true, cx)
    }

    /// Replaces ranges of the visible text; has the lines indented if asked to.
    #[verifier::rlimit(40)]
    pub fn edit_internal<S: ToOffset>(
        &mut self,
        ranges: &Vec<Range<S>>,
        new_text: &str,
        autoindent: bool,
        cx: &mut ModelContext,
    )
        requires
            old(self).wf(),
            names_ranges(ranges@, old(self)@.cells),
            edit_has_room(old(self)@, offsets_of(ranges@, old(self)@.cells), new_text@),
        ensures
            final(self).wf(),
            final(cx).same_place(old(cx)),
            ({
                let s = old(self)@;
                let joined = joined_ranges(offsets_of(ranges@, s.cells), new_text@);
                let begun = prepared(s, joined, autoindent);
                let requests = final(self)@.requests;
                &&& final(self)@ == edit_applied(begun, joined, new_text@, old(cx).now, requests)
                &&& final(cx)@ == old(cx)@ + edit_effects(
                    begun,
                    joined,
                    new_text@,
                    old(cx).now,
                    requests,
                )
                &&& requests_after(requests, s, joined, new_text@, autoindent)
            }),
    {
        let new_len = new_text.as_bytes().len();
        let ghost s = self@;
        let ghost bytes = encode_utf8(new_text@);
        let ghost offsets = offsets_of(ranges@, s.cells);
        let joined = self.coalesce(ranges, new_len > 0);
        let ghost views = pairs(joined@);
        if joined.len() == 0 {
            proof {
                assert(old(cx)@ + Seq::<EffectModel>::empty() =~= old(cx)@);
            }
            return;
        }
        proof {
            self.lemma_text();
            lemma_editable(s.cells, offsets, new_len > 0, bytes);
        }
        proof {
            assert forall|i: int| 0 <= i < joined@.len() implies (#[trigger] joined@[i]).start
                <= joined@[i].end by {
                assert(good_range(s.text(), views[i]));
            }
        }
        self.pending_autoindent = false;
        let ghost quiet = self@;
        assert(quiet =~= (State { pending_autoindent: false, ..s }));
        let request = self.prepare_request(autoindent, &joined, new_text);
        assert(self@ =~= (State {
            pending_autoindent: false,
            ..prepared(s, views, autoindent)
        }));
        let now = cx.now;
        let _ = self.start_transaction_at(None, now);
        let ghost begun = self@;
        let edit = self.edit_in_transaction(&joined, new_text);
        let ghost op = edit@;
        self.finish_request(request, &joined, new_text, Ghost(quiet));
        let ghost marked = self@;
        let _ = self.end_transaction_at(None, now, cx);
        self.send_operation(Operation::Edit(edit), cx);
        proof {
            assert(op == edit_operation(s, views, new_text@));
            assert(snapshot_of(quiet) == snapshot_of(s));
            let requests = marked.requests;
            if request is Some {
                let after = edited_within(s, views, new_text@);
                assert(request_for(*requests.last(), s, after, views, bytes));
            }
            assert(requests_after(requests, s, views, new_text@, autoindent));
            let effects = ended_effects(marked, None, now);
            let sent = send_effects(s, OperationModel::Edit(op));
            assert(old(cx)@ + effects + sent =~= old(cx)@ + (effects + sent));
        }
    }

    /// The text before an edit, and the places whose lines are to be indented
    /// after it, if that is asked for and there is a language.
    fn prepare_request(
        &mut self,
        autoindent: bool,
        ranges: &Vec<Range<usize>>,
        new_text: &str,
    ) -> (request: Option<(Snapshot, crate::content::AnchorSet)>)
        requires
            old(self).wf(),
            good_ranges(old(self)@.text(), pairs(ranges@)),
        ensures
            final(self).wf(),
            request is Some == (autoindent && old(self)@.language is Some),
            final(self)@ == if request is Some {
                interpolated(old(self)@)
            } else {
                old(self)@
            },
            match request {
                Some(pair) => {
                    let places = edited_places(
                        old(self)@.text(),
                        encode_utf8(new_text@),
                        pairs(ranges@),
                        ranges@.len() as int,
                    );
                    &&& pair.0.wf()
                    &&& pair.0@ == snapshot_of(old(self)@)
                    &&& pair.1.0.version@ == old(self)@.version
                    &&& pair.1.0.entries@.len() == places.len()
                    &&& forall|i: int|
                        0 <= i < places.len() ==> ((#[trigger] pair.1.0.entries@[i]).0.0 as int,
                            pair.1.0.entries@[i].0.1) == entry_for(old(self)@.cells, places[i])
                },
                None => true,
            },
    {
        if autoindent && self.language.is_some() {
            let before_edit = self.snapshot();
            let places = self.places_to_indent(ranges, new_text);
            let edited = self.content().anchor_set(&places);
            Some((before_edit, edited))
        } else {
            None
        }
    }

    /// Edits the visible text within a transaction, and adds the edit to it.
    fn edit_in_transaction(&mut self, ranges: &Vec<Range<usize>>, new_text: &str) -> (edit:
        EditOperation)
        requires
            old(self).wf(),
            old(self)@.history.depth > 0,
            old(self)@.can_tick(),
            local_ok(old(self)@.cells, pairs(ranges@), encode_utf8(new_text@)),
        ensures
            final(self).wf(),
            final(self)@ == edited_within(old(self)@, pairs(ranges@), new_text@),
            edit@ == edit_operation(old(self)@, pairs(ranges@), new_text@),
    {
        let ghost s = self@;
        let text: Option<String> = if new_text.as_bytes().len() > 0 {
            Some(new_text.to_owned())
        } else {
            None
        };
        proof {
            assert(bytes_of(chars_of(text)) =~= encode_utf8(new_text@));
        }
        let timestamp = InsertionTimestamp {
            replica_id: self.replica_id,
            local: self.local_clock.tick().value,
            lamport: self.lamport_clock.tick().value,
        };
        assert(self.doc() == old(self).doc());
        let edit = self.apply_local_edit(ranges, text, timestamp);
        let id = edit.timestamp.local();
        let ghost op = edit@;
        self.history.push(edit.clone());
        self.history.push_undo(id);
        self.last_edit = id;
        self.version.observe(id);
        proof {
            assert(op =~= edit_operation(s, pairs(ranges@), new_text@));
            assert(self@ =~= edited_within(s, pairs(ranges@), new_text@));
        }
        edit
    }
}

impl Buffer {
    /// Undoes the last transaction, and restores the selections from before it.
    pub fn undo(&mut self, cx: &mut ModelContext)
        requires
            old(self).wf(),
            old(self)@.history.depth == 0,
            old(self)@.can_tick(),
            old(self)@.lamport_clock.value + 1 < u32::MAX,
        ensures
            final(self).wf(),
            final(cx).same_place(old(cx)),
            ({
                let s = old(self)@;
                let done = undone_once(s);
                &&& final(self)@ == changed(done, s.version)
                &&& final(cx)@ == old(cx)@ + undone_once_effects(s) + change_effects(
                    done,
                    s.version,
                    s.is_dirty(),
                )
            }),
    {
        let was_dirty = self.is_dirty();
        let old_version = self.version.clone();
        let ghost s = self@;
        let popped = self.history.pop_undo();
        assert(self.doc() == old(self).doc());
        let ghost left = self@;
        match popped {
            Some(transaction) => {
                proof {
                    assert(s.history.undo_stack[s.history.undo_stack.len() - 1].ranges.len() > 0);
                }
                let ghost t = transaction@;
                let selections = crate::history::clone_kept(&transaction.selections_before);
                self.undo_or_redo(transaction, cx);
                self.restore_selections(selections, cx);
                proof {
                    let a = undo_effects(left, t);
                    let b = restored_effects(undone_or_redone(left, t), t.selections_before);
                    assert(old(cx)@ + a + b =~= old(cx)@ + (a + b));
                }
            },
            None => {
                assert(old(cx)@ + Seq::<EffectModel>::empty() =~= old(cx)@);
            },
        }
        self.report_changes(old_version, was_dirty, cx);
    }

    /// Redoes the transaction that was undone last, and restores the selections
    /// from after it.
    pub fn redo(&mut self, cx: &mut ModelContext)
        requires
            old(self).wf(),
            old(self)@.history.depth == 0,
            old(self)@.can_tick(),
            old(self)@.lamport_clock.value + 1 < u32::MAX,
        ensures
            final(self).wf(),
            final(cx).same_place(old(cx)),
            ({
                let s = old(self)@;
                let done = redone_once(s);
                &&& final(self)@ == changed(done, s.version)
                &&& final(cx)@ == old(cx)@ + redone_once_effects(s) + change_effects(
                    done,
                    s.version,
                    s.is_dirty(),
                )
            }),
    {
        let was_dirty = self.is_dirty();
        let old_version = self.version.clone();
        let ghost s = self@;
        let popped = self.history.pop_redo();
        assert(self.doc() == old(self).doc());
        let ghost left = self@;
        match popped {
            Some(transaction) => {
                proof {
                    assert(s.history.redo_stack[s.history.redo_stack.len() - 1].ranges.len() > 0);
                }
                let ghost t = transaction@;
                let selections = crate::history::clone_kept(&transaction.selections_after);
                self.undo_or_redo(transaction, cx);
                self.restore_selections(selections, cx);
                proof {
                    let a = undo_effects(left, t);
                    let b = restored_effects(undone_or_redone(left, t), t.selections_after);
                    assert(old(cx)@ + a + b =~= old(cx)@ + (a + b));
                }
            },
            None => {
                assert(old(cx)@ + Seq::<EffectModel>::empty() =~= old(cx)@);
            },
        }
        self.report_changes(old_version, was_dirty, cx);
    }

    /// Restores selections that were kept with a transaction, if there still is
    /// such a set.
    fn restore_selections(
        &mut self,
        kept: Option<(SelectionSetId, Vec<Selection>)>,
        cx: &mut ModelContext,
    )
        requires
            old(self).wf(),
            old(self)@.lamport_clock.value < u32::MAX,
        ensures
            final(self).wf(),
            final(cx).same_place(old(cx)),
            final(self)@ == restored(old(self)@, kept_models(kept)),
            final(cx)@ == old(cx)@ + restored_effects(old(self)@, kept_models(kept)),
    {
        match kept {
            Some((set_id, selections)) => {
                let result = self.update_selection_set(set_id, selections, cx);
                if result.is_err() {
                    assert(old(cx)@ + Seq::<EffectModel>::empty() =~= old(cx)@);
                }
            },
            None => {
                assert(old(cx)@ + Seq::<EffectModel>::empty() =~= old(cx)@);
            },
        }
    }

    /// Undoes a transaction, or redoes it if it is undone.
    pub fn undo_or_redo(&mut self, transaction: Transaction, cx: &mut ModelContext)
        requires
            old(self).wf(),
            old(self)@.can_tick(),
            transaction@.ranges.len() > 0,
        ensures
            final(self).wf(),
            final(cx).same_place(old(cx)),
            final(self)@ == undone_or_redone(old(self)@, transaction@),
            final(cx)@ == old(cx)@ + undo_effects(old(self)@, transaction@),
    {
        let ghost s = self@;
        let ghost t = transaction@;
        let mut counts: LocalMap<u32> = LocalMap::new();
        let mut i: usize = 0;
        while i < transaction.edits.len()
            invariant
                i <= transaction.edits@.len(),
                *self == *old(self),
                s == self@,
                t.edits == transaction.edits@,
                counts@ == next_counts(s.log, t.edits, i as int),
            decreases transaction.edits@.len() - i,
        {
            let edit_id = transaction.edits[i];
            let count = self.undo_map.undo_count(edit_id);
            let next: u32 = if count == u32::MAX {
                count
            } else {
                count + 1
            };
            let _ = counts.insert(edit_id, next);
            i = i + 1;
        }
        let Transaction { start, ranges, .. } = transaction;
        let undo = UndoOperation { id: self.local_clock.tick(), counts, ranges, version: start };
        assert(self.doc() == old(self).doc());
        let ghost u = undo@;
        assert(u =~= undo_of(s, t));
        self.apply_undo(&undo);
        self.version.observe(undo.id);
        let lamport_timestamp = self.lamport_clock.tick();
        let operation = Operation::Undo { undo, lamport_timestamp };
        proof {
            assert(self@ =~= undone_or_redone(s, t));
        }
        self.send_operation(operation, cx);
    }

    /// Records an undo or redo, and shows or hides the text that it touches.
    pub fn apply_undo(&mut self, undo: &UndoOperation)
        requires
            old(self).in_order(),
            undo@.ranges.len() > 0,
        ensures
            final(self).in_order(),
            old(self).wf() ==> final(self).wf(),
            final(self)@ == undo_state(old(self)@, undo@),
    {
        self.undo_map.insert(undo.id, &undo.counts);
        assert(self.doc() == old(self).doc());
        let (fragments, visible_text, deleted_text) = undo_edits(
            &self.fragments,
            &self.visible_text,
            &self.deleted_text,
            &self.undo_map,
            undo.id,
            &undo.counts,
            &undo.ranges,
            &undo.version,
        );
        self.fragments = fragments;
        self.visible_text = visible_text;
        self.deleted_text = deleted_text;
    }
}

/// An edit can be made: it does nothing, or what it replaces lies in the text and
/// between characters, and there are clock values and there is space for the new
/// text.
pub open spec fn edit_has_room(s: State, offsets: Seq<(int, int)>, text: Seq<char>) -> bool {
    let joined = joined_ranges(offsets, text);
    joined.len() > 0 ==> {
        &&& good_ranges(s.text(), joined)
        &&& s.can_tick()
        &&& s.history.depth < usize::MAX
        &&& s.cells.len() + joined.len() * encode_utf8(text).len() < usize::MAX
    }
}

/// The ranges of an edit, those that do nothing left out and those that touch
/// joined.
pub open spec fn joined_ranges(offsets: Seq<(int, int)>, text: Seq<char>) -> Seq<(int, int)> {
    coalesced(offsets, encode_utf8(text).len() > 0, offsets.len() as int)
}

} // verus!
