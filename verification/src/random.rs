//! Changes made to a buffer at random.

use std::ops::Range;

use rand::Rng;
use rand::rngs::StdRng;
use vstd::prelude::*;
use vstd::utf8::*;

use crate::buffer::Buffer;
use crate::buffer_edit::{good_range, good_ranges, joined_ranges, lemma_coalesced, offsets_of};
use crate::buffer_selections::ticked;
use crate::content::anchor_for;
use crate::context::{EffectModel, ModelContext};
use crate::operation::{
    Selection, SelectionGoal, SelectionModel, SelectionSetId, SelectionSetModel, selection_models,
};
use crate::remote::pairs;
use crate::rope::{Bias, boundary_after, lemma_boundaries};
use crate::state::{
    State, coalesced, edit_applied, edit_effects, selections_effects, selections_updated,
    undo_effects, undone_or_redone,
};

verus! {

#[verifier::external_type_specification]
#[verifier::external_body]
pub struct ExStdRng(rand::rngs::StdRng);

/// Calls `rand::Rng::gen_range`, which draws a number between the two given,
/// both of them possible. Which one it is is left to chance.
#[verifier::external_body]
fn number_between(rng: &mut StdRng, low: usize, high: usize) -> (number: usize)
    requires
        low <= high,
    ensures
        low <= number <= high,
{
    rng.gen_range(low..=high)
}

/// Calls `rand::Rng::gen_ratio`, which says yes `yes` times out of `all`. The
/// answer is left to chance.
#[verifier::external_body]
fn happens(rng: &mut StdRng, yes: u32, all: u32) -> (answer: bool)
    requires
        0 < yes < all,
{
    rng.gen_ratio(yes, all)
}

/// A character, as a text of its own.
fn random_char(rng: &mut StdRng) -> (text: &'static str)
    ensures
        text@.len() == 1,
{
    proof {
        reveal_strlit(" ");
        reveal_strlit("\n");
        reveal_strlit("\t");
        reveal_strlit("a");
        reveal_strlit("k");
        reveal_strlit("z");
        reveal_strlit("{");
        reveal_strlit("}");
        reveal_strlit("α");
        reveal_strlit("ω");
        reveal_strlit("✅");
        reveal_strlit("🏀");
    }
    match number_between(rng, 0, 11) {
        0 => " ",
        1 => "\n",
        2 => "\t",
        3 => "k",
        4 => "z",
        5 => "{",
        6 => "}",
        7 => "α",
        8 => "ω",
        9 => "✅",
        10 => "🏀",
        _ => "a",
    }
}

/// A text of the given number of characters.
fn random_text(rng: &mut StdRng, len: usize) -> (text: String)
    ensures
        text@.len() == len,
{
    let mut text = String::new();
    let mut i: usize = 0;
    while i < len
        invariant
            i <= len,
            text@.len() == i,
        decreases len - i,
    {
        text.append(random_char(rng));
        i = i + 1;
    }
    text
}

/// A text takes at most four bytes for each character.
pub proof fn lemma_text_size(text: Seq<char>)
    ensures
        encode_utf8(text).len() <= 4 * text.len(),
    decreases text.len(),
{
    if text.len() > 0 {
        lemma_text_size(text.drop_first());
    }
}

proof fn lemma_boundary_after_grows(b: Seq<u8>, i: int, end: int)
    requires
        valid_utf8(b),
        0 <= i <= end <= b.len(),
        is_char_boundary(b, end),
    ensures
        boundary_after(b, i) <= end,
    decreases end - i,
{
    is_char_boundary_start_end_of_seq(b);
    if i < b.len() && !is_char_boundary(b, i) {
        lemma_boundary_after_grows(b, i + 1, end);
    }
}

/// Ranges of the text that follow each other with a gap of at least one byte.
pub open spec fn spaced_out(text: Seq<u8>, ranges: Seq<(int, int)>) -> bool {
    &&& good_ranges(text, ranges)
    &&& forall|i: int, j: int|
        0 <= i < j < ranges.len() ==> (#[trigger] ranges[i]).1 < (#[trigger] ranges[j]).0
}

/// There are `count` ranges, or fewer only because the last one reaches the end
/// of the text.
pub open spec fn as_many_as_fit(text: Seq<u8>, ranges: Seq<(int, int)>, count: int) -> bool {
    &&& ranges.len() <= count
    &&& ranges.len() < count ==> ranges.len() > 0 && ranges.last().1 == text.len()
}

proof fn lemma_coalesced_len(ranges: Seq<(int, int)>, inserts: bool, n: int)
    requires
        0 <= n <= ranges.len(),
    ensures
        coalesced(ranges, inserts, n).len() <= n,
    decreases n,
{
    if n > 0 {
        lemma_coalesced_len(ranges, inserts, n - 1);
    }
}

/// The selection of a range, from the end that stays to the one that moves.
pub open spec fn selection_of(s: State, range: (int, int), id: usize) -> SelectionModel {
    if range.0 > range.1 {
        SelectionModel {
            id,
            start: anchor_for(s.cells, s.version, range.1, Bias::Left),
            end: anchor_for(s.cells, s.version, range.0, Bias::Left),
            reversed: true,
            goal: SelectionGoal::NoGoal,
        }
    } else {
        SelectionModel {
            id,
            start: anchor_for(s.cells, s.version, range.0, Bias::Right),
            end: anchor_for(s.cells, s.version, range.1, Bias::Left),
            reversed: false,
            goal: SelectionGoal::NoGoal,
        }
    }
}

/// The first `n` ranges in the order of their starts; those that start at the
/// same place stay as they are.
pub open spec fn by_start(ranges: Seq<(int, int)>, n: int) -> Seq<(int, int)>
    decreases n,
{
    if n <= 0 {
        Seq::empty()
    } else {
        let before = by_start(ranges, n - 1);
        before.insert(slot_after(before, ranges[n - 1].0, before.len() as int), ranges[n - 1])
    }
}

/// The place after the last of the first `n` ranges that does not start after
/// `start`.
pub open spec fn slot_after(ranges: Seq<(int, int)>, start: int, n: int) -> int
    decreases n,
{
    if n <= 0 {
        0
    } else if ranges[n - 1].0 <= start {
        n
    } else {
        slot_after(ranges, start, n - 1)
    }
}

proof fn lemma_slot_after(ranges: Seq<(int, int)>, start: int, n: int)
    requires
        0 <= n,
    ensures
        0 <= slot_after(ranges, start, n) <= n,
    decreases n,
{
    if n > 0 {
        lemma_slot_after(ranges, start, n - 1);
    }
}

/// The selections of ranges, in the order of their starts, numbered from `first`
/// on.
pub open spec fn selections_of(s: State, ranges: Seq<(int, int)>, first: usize) -> Seq<
    SelectionModel,
> {
    let sorted = by_start(ranges, ranges.len() as int);
    Seq::new(sorted.len(), |i: int| selection_of(s, sorted[i], (first + i) as usize))
}

fn sort_by_start(ranges: &Vec<Range<usize>>) -> (sorted: Vec<Range<usize>>)
    ensures
        pairs(sorted@) == by_start(pairs(ranges@), ranges@.len() as int),
        sorted@.len() == ranges@.len(),
        forall|i: int|
            0 <= i < sorted@.len() ==> exists|j: int|
                0 <= j < ranges@.len() && #[trigger] sorted@[i] == #[trigger] ranges@[j],
{
    let mut sorted: Vec<Range<usize>> = Vec::new();
    let mut i: usize = 0;
    assert(pairs(sorted@) =~= Seq::<(int, int)>::empty());
    while i < ranges.len()
        invariant
            i <= ranges@.len(),
            sorted@.len() == i,
            pairs(sorted@) == by_start(pairs(ranges@), i as int),
            forall|k: int|
                0 <= k < sorted@.len() ==> exists|j: int|
                    0 <= j < ranges@.len() && #[trigger] sorted@[k] == #[trigger] ranges@[j],
        decreases ranges@.len() - i,
    {
        let start = ranges[i].start;
        let ghost before = sorted@;
        let mut slot: usize = sorted.len();
        proof {
            assert(pairs(before).len() == before.len());
        }
        while slot > 0 && sorted[slot - 1].start > start
            invariant
                slot <= sorted@.len(),
                sorted@ == before,
                slot_after(pairs(before), start as int, slot as int) == slot_after(
                    pairs(before),
                    start as int,
                    before.len() as int,
                ),
            decreases slot,
        {
            assert(pairs(before)[slot - 1] == (
                before[slot - 1].start as int,
                before[slot - 1].end as int,
            ));
            slot = slot - 1;
        }
        proof {
            if slot > 0 {
                assert(pairs(before)[slot - 1] == (
                    before[slot - 1].start as int,
                    before[slot - 1].end as int,
                ));
            }
        }
        let range = ranges[i].start..ranges[i].end;
        sorted.insert(slot, range);
        proof {
            assert(range == ranges@[i as int]);
            assert(pairs(ranges@)[i as int] == (range.start as int, range.end as int));
            assert(pairs(sorted@) =~= pairs(before).insert(
                slot as int,
                pairs(ranges@)[i as int],
            ));
            assert forall|k: int| 0 <= k < sorted@.len() implies exists|j: int|
                0 <= j < ranges@.len() && #[trigger] sorted@[k] == #[trigger] ranges@[j] by {
                if k < slot {
                    assert(sorted@[k] == before[k]);
                } else if k == slot {
                    assert(sorted@[k] == ranges@[i as int]);
                } else {
                    assert(sorted@[k] == before[k - 1]);
                }
            }
        }
        i = i + 1;
    }
    sorted
}

/// The buffer with one more set of selections.
pub open spec fn set_added(s: State, selections: Seq<SelectionModel>) -> State {
    State {
        selections: s.selections.insert(
            s.lamport_clock,
            SelectionSetModel { selections, active: false },
        ),
        lamport_clock: ticked(s.lamport_clock),
        ..s
    }
}

/// The buffer without a set of selections.
pub open spec fn set_removed(s: State, id: SelectionSetId) -> State {
    State {
        selections: s.selections.remove(id),
        lamport_clock: ticked(s.lamport_clock),
        ..s
    }
}

/// What can happen to the selections of a buffer at random: one of its sets
/// goes, is given other selections, or a new one comes.
pub open spec fn selections_changed(
    s: State,
    selections: Seq<SelectionModel>,
    id: Option<SelectionSetId>,
    removed: bool,
) -> State {
    match id {
        Some(id) => if removed {
            set_removed(s, id)
        } else {
            selections_updated(s, id, selections)
        },
        None => set_added(s, selections),
    }
}

/// What is reported and sent when that happens.
pub open spec fn selections_changed_effects(
    s: State,
    selections: Seq<SelectionModel>,
    id: Option<SelectionSetId>,
    removed: bool,
) -> Seq<EffectModel> {
    match id {
        Some(id) => if removed {
            selections_effects(s, id, None)
        } else {
            selections_effects(s, id, Some(selections))
        },
        None => selections_effects(s, s.lamport_clock, Some(selections)),
    }
}

/// The set is one of the replica's own.
pub open spec fn own_set(s: State, id: Option<SelectionSetId>) -> bool {
    match id {
        Some(id) => s.selections.contains_key(id) && id.replica_id == s.replica_id,
        None => true,
    }
}

/// Five ranges of the text.
pub open spec fn five_ranges(text: Seq<u8>, ranges: Seq<(int, int)>) -> bool {
    ranges.len() == 5 && good_ranges(text, ranges)
}

/// A change of the selections that can come about at random.
pub open spec fn may_change(
    s: State,
    id: Option<SelectionSetId>,
    removed: bool,
    ranges: Seq<(int, int)>,
) -> bool {
    &&& own_set(s, id)
    &&& five_ranges(s.text(), ranges)
    &&& removed ==> id is Some
}

/// The buffer once the transactions at the given places have been undone or
/// redone, one after the other.
pub open spec fn undone_in_turn(s: State, places: Seq<int>) -> State
    decreases places.len(),
{
    if places.len() == 0 {
        s
    } else {
        let before = undone_in_turn(s, places.drop_last());
        undone_or_redone(before, before.history.undo_stack[places.last()])
    }
}

/// What is sent when that happens.
pub open spec fn undone_in_turn_effects(s: State, places: Seq<int>) -> Seq<EffectModel>
    decreases places.len(),
{
    if places.len() == 0 {
        Seq::empty()
    } else {
        let before = undone_in_turn(s, places.drop_last());
        undone_in_turn_effects(s, places.drop_last()) + undo_effects(
            before,
            before.history.undo_stack[places.last()],
        )
    }
}

/// There are clock values left for some more operations.
pub open spec fn can_tick_times(s: State, n: int) -> bool {
    &&& s.local_clock.value + n <= u32::MAX
    &&& s.lamport_clock.value + n <= u32::MAX
}

impl Buffer {
    /// A range of the text from some offset on.
    fn random_byte_range(&self, start_offset: usize, rng: &mut StdRng) -> (range: Range<usize>)
        requires
            self.wf(),
            start_offset <= self@.text().len(),
        ensures
            start_offset <= range.start,
            good_range(self@.text(), (range.start as int, range.end as int)),
    {
        let ghost text = self@.text();
        proof {
            self.lemma_text();
        }
        let chosen = number_between(rng, start_offset, self.len());
        proof {
            lemma_boundaries(text, chosen as int);
        }
        let end = self.clip_offset(chosen, Bias::Right);
        let chosen = number_between(rng, start_offset, end);
        proof {
            lemma_boundaries(text, chosen as int);
            lemma_boundary_after_grows(text, chosen as int, end as int);
        }
        let start = self.clip_offset(chosen, Bias::Right);
        start..end
    }

    /// Replaces `old_range_count` ranges of the text, or as many as there is room
    /// for, with another text, and returns both.
    pub fn randomly_edit(
        &mut self,
        rng: &mut StdRng,
        old_range_count: usize,
        cx: &mut ModelContext,
    ) -> (edit: (Vec<Range<usize>>, String))
        requires
            old(self).wf(),
            old(self)@.can_tick(),
            old(self)@.history.depth < usize::MAX,
            old(self)@.cells.len() + 36 * old_range_count < usize::MAX,
        ensures
            final(self).wf(),
            final(cx).same_place(old(cx)),
            as_many_as_fit(old(self)@.text(), pairs(edit.0@), old_range_count as int),
            spaced_out(old(self)@.text(), pairs(edit.0@)),
            edit.1@.len() < 10,
            ({
                let s = old(self)@;
                let joined = joined_ranges(pairs(edit.0@), edit.1@);
                &&& final(self)@ == edit_applied(s, joined, edit.1@, old(cx).now, s.requests)
                &&& final(cx)@ == old(cx)@ + edit_effects(
                    s,
                    joined,
                    edit.1@,
                    old(cx).now,
                    s.requests,
                )
            }),
    {
        let ghost s = self@;
        proof {
            self.lemma_text();
        }
        let mut old_ranges: Vec<Range<usize>> = Vec::new();
        let mut last_end: usize = 0;
        let mut i: usize = 0;
        while i < old_range_count && last_end <= self.len()
            invariant
                *self == *old(self),
                self.wf(),
                s == self@,
                s.text().len() < usize::MAX,
                i <= old_range_count,
                old_ranges@.len() == i,
                last_end == if i == 0 {
                    0
                } else {
                    old_ranges@[i - 1].end + 1
                },
                spaced_out(s.text(), pairs(old_ranges@)),
                forall|k: int| 0 <= k < old_ranges@.len() ==> (#[trigger] old_ranges@[k]).end
                    < last_end,
                last_end <= s.text().len() + 1,
            decreases old_range_count - i,
        {
            let range = self.random_byte_range(last_end, rng);
            last_end = range.end + 1;
            let ghost before = old_ranges@;
            let ghost pair = (range.start as int, range.end as int);
            old_ranges.push(range);
            proof {
                assert(pairs(old_ranges@) =~= pairs(before).push(pair));
                let now = pairs(old_ranges@);
                assert(now.len() == before.len() + 1);
                assert forall|a: int| 0 <= a < now.len() implies good_range(
                    s.text(),
                    #[trigger] now[a],
                ) by {
                    if a < before.len() {
                        assert(now[a] == pairs(before)[a]);
                    }
                }
                assert forall|a: int, b: int| 0 <= a < b < now.len() implies (
                #[trigger] now[a]).1 < (#[trigger] now[b]).0 by {
                    assert(now[a] == pairs(before)[a]);
                    if b < before.len() {
                        assert(now[b] == pairs(before)[b]);
                    } else {
                        assert(before[a].end < pair.0);
                    }
                }
            }
            i = i + 1;
        }
        proof {
            let found = pairs(old_ranges@);
            assert(found.len() == i);
            if i < old_range_count {
                assert(good_range(s.text(), found[i - 1]));
                assert(found.last().1 == old_ranges@[i - 1].end);
            }
        }
        let new_text_len = number_between(rng, 0, 9);
        let new_text = random_text(rng, new_text_len);
        proof {
            let offsets = offsets_of(old_ranges@, s.cells);
            assert(offsets =~= pairs(old_ranges@));
            lemma_text_size(new_text@);
            let inserts = encode_utf8(new_text@).len() > 0;
            lemma_coalesced_len(offsets, inserts, offsets.len() as int);
            lemma_coalesced(s.text(), offsets, inserts, offsets.len() as int);
            let n = joined_ranges(offsets, new_text@).len();
            let m = encode_utf8(new_text@).len();
            assert(n * m <= 36 * old_range_count) by (nonlinear_arith)
                requires
                    n <= old_range_count,
                    m <= 36,
            ;
        }
        self.edit(&old_ranges, new_text.as_str(), cx);
        (old_ranges, new_text)
    }

    /// The selections of ranges of the text, in the order of their starts,
    /// numbered from `first_id` on.
    pub fn selections_from_ranges(&self, ranges: &Vec<Range<usize>>, first_id: usize) -> (
        selections: Vec<Selection>)
        requires
            self.wf(),
            first_id + ranges@.len() <= usize::MAX,
            forall|i: int|
                0 <= i < ranges@.len() ==> (#[trigger] ranges@[i]).start <= self@.text().len()
                    && ranges@[i].end <= self@.text().len(),
        ensures
            selection_models(selections@) == selections_of(self@, pairs(ranges@), first_id),
    {
        let sorted = sort_by_start(ranges);
        let ghost models = pairs(sorted@);
        let ghost goal = selections_of(self@, pairs(ranges@), first_id);
        let mut selections: Vec<Selection> = Vec::new();
        let mut i: usize = 0;
        assert(models.len() == sorted@.len());
        assert(models.len() == pairs(ranges@).len());
        assert(selection_models(selections@) =~= goal.take(0));
        while i < sorted.len()
            invariant
                self.wf(),
                i <= sorted@.len(),
                sorted@.len() == ranges@.len(),
                models == pairs(sorted@),
                models == by_start(pairs(ranges@), ranges@.len() as int),
                pairs(ranges@).len() == ranges@.len(),
                goal == selections_of(self@, pairs(ranges@), first_id),
                first_id + ranges@.len() <= usize::MAX,
                forall|k: int|
                    0 <= k < sorted@.len() ==> exists|j: int|
                        0 <= j < ranges@.len() && #[trigger] sorted@[k] == #[trigger] ranges@[j],
                forall|k: int|
                    0 <= k < ranges@.len() ==> (#[trigger] ranges@[k]).start <= self@.text().len()
                        && ranges@[k].end <= self@.text().len(),
                selections@.len() == i,
                selection_models(selections@) == goal.take(i as int),
            decreases sorted@.len() - i,
        {
            let start = sorted[i].start;
            let end = sorted[i].end;
            let id = first_id + i;
            proof {
                let j = choose|j: int|
                    0 <= j < ranges@.len() && sorted@[i as int] == #[trigger] ranges@[j];
                assert(ranges@[j].start <= self@.text().len());
                assert(models[i as int] == (start as int, end as int));
            }
            let selection = if start > end {
                Selection {
                    id,
                    start: self.anchor_before(end),
                    end: self.anchor_before(start),
                    reversed: true,
                    goal: SelectionGoal::NoGoal,
                }
            } else {
                Selection {
                    id,
                    start: self.anchor_after(start),
                    end: self.anchor_before(end),
                    reversed: false,
                    goal: SelectionGoal::NoGoal,
                }
            };
            let ghost before = selections@;
            selections.push(selection);
            proof {
                assert(models.len() == sorted@.len());
                assert(goal.len() == models.len());
                assert(selection@ == goal[i as int]);
                assert(selection_models(selections@) =~= selection_models(before).push(
                    selection@,
                ));
                assert(goal.take(i + 1) =~= goal.take(i as int).push(goal[i as int]));
            }
            i = i + 1;
        }
        proof {
            assert(models.len() == sorted@.len());
            assert(goal.take(i as int) =~= goal);
        }
        selections
    }

    /// One of the sets of selections of this replica, if it has any.
    fn random_own_set(&self, rng: &mut StdRng) -> (id: Option<SelectionSetId>)
        ensures
            match id {
                Some(id) => own_set(self@, Some(id)),
                None => forall|id: SelectionSetId| !#[trigger] own_set(self@, Some(id)),
            },
    {
        let ids = self.selections.ids();
        let mut own: Vec<SelectionSetId> = Vec::new();
        let mut i: usize = 0;
        while i < ids.len()
            invariant
                i <= ids@.len(),
                forall|id: SelectionSetId| #[trigger]
                    ids@.contains(id) <==> self@.selections.contains_key(id),
                forall|k: int|
                    0 <= k < own@.len() ==> own_set(self@, Some(#[trigger] own@[k])),
                own@.len() == 0 ==> forall|k: int|
                    0 <= k < i ==> (#[trigger] ids@[k]).replica_id != self@.replica_id,
            decreases ids@.len() - i,
        {
            let id = ids[i];
            assert(ids@.contains(ids@[i as int]));
            if id.replica_id == self.replica_id {
                own.push(id);
            }
            i = i + 1;
        }
        if own.len() == 0 {
            proof {
                assert forall|id: SelectionSetId| !#[trigger] own_set(self@, Some(id)) by {
                    if self@.selections.contains_key(id) {
                        assert(ids@.contains(id));
                        let k = ids@.index_of(id);
                        assert(ids@[k].replica_id != self@.replica_id);
                    }
                }
            }
            return None;
        }
        let k = number_between(rng, 0, own.len() - 1);
        assert(own_set(self@, Some(own@[k as int])));
        Some(own[k])
    }

    /// Five ranges of the text.
    fn random_ranges(&self, rng: &mut StdRng) -> (ranges: Vec<Range<usize>>)
        requires
            self.wf(),
        ensures
            five_ranges(self@.text(), pairs(ranges@)),
    {
        let mut ranges: Vec<Range<usize>> = Vec::new();
        let mut i: usize = 0;
        while i < 5
            invariant
                self.wf(),
                i <= 5,
                ranges@.len() == i,
                good_ranges(self@.text(), pairs(ranges@)),
            decreases 5 - i,
        {
            let range = self.random_byte_range(0, rng);
            let ghost before = pairs(ranges@);
            let ghost pair = (range.start as int, range.end as int);
            ranges.push(range);
            proof {
                assert(pairs(ranges@) =~= before.push(pair));
            }
            i = i + 1;
        }
        ranges
    }

    /// Edits the text at random, and then does one of several things to the
    /// selections. New ones are numbered from `first_id` on.
    pub fn randomly_mutate(
        &mut self,
        rng: &mut StdRng,
        first_id: usize,
        cx: &mut ModelContext,
    ) -> (edit: (Vec<Range<usize>>, String))
        requires
            old(self).wf(),
            can_tick_times(old(self)@, 2),
            old(self)@.history.depth < usize::MAX,
            old(self)@.cells.len() + 180 < usize::MAX,
            first_id + 5 <= usize::MAX,
        ensures
            final(self).wf(),
            final(cx).same_place(old(cx)),
            as_many_as_fit(old(self)@.text(), pairs(edit.0@), 5),
            spaced_out(old(self)@.text(), pairs(edit.0@)),
            edit.1@.len() < 10,
            ({
                let s = old(self)@;
                let joined = joined_ranges(pairs(edit.0@), edit.1@);
                let done = edit_applied(s, joined, edit.1@, old(cx).now, s.requests);
                let effects = edit_effects(s, joined, edit.1@, old(cx).now, s.requests);
                exists|id: Option<SelectionSetId>, removed: bool, ranges: Seq<(int, int)>|
                    final(self)@ == selections_changed(
                        done,
                        selections_of(done, ranges, first_id),
                        id,
                        removed,
                    ) && final(cx)@ == old(cx)@ + (effects + selections_changed_effects(
                        done,
                        selections_of(done, ranges, first_id),
                        id,
                        removed,
                    )) && #[trigger] may_change(done, id, removed, ranges)
            }),
    {
        let ghost s = self@;
        let ghost start = cx@;
        let edit = self.randomly_edit(rng, 5, cx);
        let ghost done = self@;
        let ghost effects = edit_effects(
            s,
            joined_ranges(pairs(edit.0@), edit.1@),
            edit.1@,
            cx.now,
            s.requests,
        );
        proof {
            self.lemma_text();
        }
        let id = self.random_own_set(rng);
        let ranges = self.random_ranges(rng);
        let ghost places = pairs(ranges@);
        proof {
            assert forall|i: int| 0 <= i < ranges@.len() implies (#[trigger] ranges@[i]).start
                <= done.text().len() && ranges@[i].end <= done.text().len() by {
                assert(good_range(done.text(), places[i]));
            }
            assert(ranges@.len() == places.len());
        }
        let selections = self.selections_from_ranges(&ranges, first_id);
        let ghost models = selections_of(done, places, first_id);
        let mut target = id;
        let mut removed = false;
        match id {
            Some(set_id) => {
                if happens(rng, 1, 6) {
                    removed = true;
                    let _ = self.remove_selection_set(set_id, cx);
                } else if happens(rng, 1, 5) {
                    target = None;
                    let _ = self.add_selection_set(selections, cx);
                } else {
                    let _ = self.update_selection_set(set_id, selections, cx);
                }
            },
            None => {
                let _ = self.add_selection_set(selections, cx);
            },
        }
        proof {
            let more = selections_changed_effects(done, models, target, removed);
            assert(may_change(done, target, removed, places));
            assert(self@ == selections_changed(done, models, target, removed));
            assert(cx@ =~= start + (effects + more));
        }
        edit
    }

    /// Undoes or redoes some of the transactions, one to five times, if there are
    /// any.
    pub fn randomly_undo_redo(&mut self, rng: &mut StdRng, cx: &mut ModelContext)
        requires
            old(self).wf(),
            can_tick_times(old(self)@, 5),
            old(self)@.history.depth == 0,
        ensures
            final(self).wf(),
            final(cx).same_place(old(cx)),
            exists|places: Seq<int>|
                {
                    &&& places.len() <= 5
                    &&& old(self)@.history.undo_stack.len() > 0 ==> places.len() > 0
                    &&& forall|i: int|
                        0 <= i < places.len() ==> 0 <= #[trigger] places[i] < old(
                            self,
                        )@.history.undo_stack.len()
                    &&& final(self)@ == #[trigger] undone_in_turn(old(self)@, places)
                    &&& final(cx)@ == old(cx)@ + undone_in_turn_effects(old(self)@, places)
                },
    {
        let ghost s = self@;
        let ghost start = cx@;
        let times = number_between(rng, 1, 5);
        let ghost mut places: Seq<int> = Seq::empty();
        let mut i: usize = 0;
        assert(start + Seq::<EffectModel>::empty() =~= start);
        while i < times
            invariant
                i <= times <= 5,
                times > 0,
                self.wf(),
                s == old(self)@,
                start == old(cx)@,
                cx.same_place(old(cx)),
                self@ == undone_in_turn(s, places),
                cx@ == start + undone_in_turn_effects(s, places),
                places.len() <= i,
                s.history.undo_stack.len() > 0 ==> places.len() == i,
                forall|k: int|
                    0 <= k < places.len() ==> 0 <= #[trigger] places[k]
                        < s.history.undo_stack.len(),
                self@.history == s.history,
                s.history.depth == 0,
                can_tick_times(self@, 5 - i),
            decreases times - i,
        {
            let len = self.history.undo_stack.len();
            if len > 0 {
                let k = number_between(rng, 0, len - 1);
                let ghost before = self@;
                proof {
                    assert(before.history.undo_stack[k as int]
                        == self.history.undo_stack@[k as int]@);
                    assert(before.history.undo_stack[k as int].ranges.len() > 0);
                }
                let transaction = self.history.undo_stack[k].clone();
                self.undo_or_redo(transaction, cx);
                proof {
                    let now = places.push(k as int);
                    assert(now.drop_last() =~= places);
                    let sofar = undone_in_turn_effects(s, places);
                    let more = undo_effects(before, before.history.undo_stack[k as int]);
                    assert(start + sofar + more =~= start + (sofar + more));
                    places = now;
                }
            }
            i = i + 1;
        }
    }
}

} // verus!
