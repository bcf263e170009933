//! The selections of a buffer.

use std::ops::Range;
use vstd::prelude::*;

use crate::buffer::Buffer;
use crate::clock::{Lamport, ReplicaId};
use crate::content::{ToOffset, anchor_offset};
use crate::context::{EffectModel, ModelContext};
use crate::document::Cell;
use crate::error::Error;
use crate::operation::{
    Operation, OperationModel, Selection, SelectionModel, SelectionSet, SelectionSetId,
    SelectionSetModel, clone_selections, selection_models,
};
use crate::selection_map::{activated, without_replica};
use crate::state::{State, selections_effects, selections_updated, send_effects};

verus! {

/// The clock after one tick.
pub open spec fn ticked(clock: Lamport) -> Lamport {
    Lamport { value: (clock.value + 1) as u32, ..clock }
}

/// The range of a selection in a text, from the end that stays to the end that
/// moves.
pub open spec fn selection_range(cells: Seq<Cell>, selection: SelectionModel) -> (int, int) {
    let start = anchor_offset(cells, selection.start);
    let end = anchor_offset(cells, selection.end);
    if selection.reversed {
        (end, start)
    } else {
        (start, end)
    }
}

/// The ranges of some selections in a text.
pub open spec fn selection_ranges_of(cells: Seq<Cell>, selections: Seq<SelectionModel>) -> Seq<
    (int, int),
> {
    selections.map_values(|s: SelectionModel| selection_range(cells, s))
}

impl Buffer {
    /// Adds a set of selections, and returns its id.
    pub fn add_selection_set(&mut self, selections: Vec<Selection>, cx: &mut ModelContext) -> (id:
        SelectionSetId)
        requires
            old(self).wf(),
            old(self)@.lamport_clock.value < u32::MAX,
        ensures
            final(self).wf(),
            final(cx).same_place(old(cx)),
            id == old(self)@.lamport_clock,
            final(self)@ == (State {
                selections: old(self)@.selections.insert(
                    id,
                    SelectionSetModel {
                        selections: selection_models(selections@),
                        active: false,
                    },
                ),
                lamport_clock: ticked(old(self)@.lamport_clock),
                ..old(self)@
            }),
            final(cx)@ == old(cx)@ + selections_effects(
                old(self)@,
                id,
                Some(selection_models(selections@)),
            ),
    {
        let ghost models = selection_models(selections@);
        let lamport_timestamp = self.lamport_clock.tick();
        let copy = clone_selections(&selections);
        self.selections.insert(lamport_timestamp, SelectionSet { selections, active: false });
        cx.notify();
        assert(self.doc() == old(self).doc());
        self.send_operation(
            Operation::UpdateSelections {
                set_id: lamport_timestamp,
                selections: Some(copy),
                lamport_timestamp,
            },
            cx,
        );
        proof {
            assert(cx@ =~= old(cx)@ + selections_effects(
                old(self)@,
                lamport_timestamp,
                Some(models),
            ));
        }
        lamport_timestamp
    }

    /// Gives a set other selections; an error if there is no such set.
    pub fn update_selection_set(
        &mut self,
        set_id: SelectionSetId,
        selections: Vec<Selection>,
        cx: &mut ModelContext,
    ) -> (result: Result<(), Error>)
        requires
            old(self).wf(),
            old(self)@.lamport_clock.value < u32::MAX,
        ensures
            final(self).wf(),
            final(cx).same_place(old(cx)),
            match result {
                Ok(()) => {
                    &&& old(self)@.selections.contains_key(set_id)
                    &&& final(self)@ == selections_updated(
                        old(self)@,
                        set_id,
                        selection_models(selections@),
                    )
                    &&& final(cx)@ == old(cx)@ + selections_effects(
                        old(self)@,
                        set_id,
                        Some(selection_models(selections@)),
                    )
                },
                Err(error) => {
                    &&& !old(self)@.selections.contains_key(set_id)
                    &&& error == Error::InvalidSelectionSet(set_id)
                    &&& final(self)@ == old(self)@
                    &&& final(cx)@ == old(cx)@
                },
            },
    {
        let ghost models = selection_models(selections@);
        let copy = clone_selections(&selections);
        if !self.selections.set_selections(set_id, selections) {
            return Err(Error::InvalidSelectionSet(set_id));
        }
        let lamport_timestamp = self.lamport_clock.tick();
        cx.notify();
        assert(self.doc() == old(self).doc());
        self.send_operation(
            Operation::UpdateSelections { set_id, selections: Some(copy), lamport_timestamp },
            cx,
        );
        proof {
            assert(cx@ =~= old(cx)@ + selections_effects(old(self)@, set_id, Some(models)));
        }
        Ok(())
    }

    /// Makes one set of this replica active, and its others inactive.
    pub fn set_active_selection_set(
        &mut self,
        set_id: Option<SelectionSetId>,
        cx: &mut ModelContext,
    ) -> (result: Result<(), Error>)
        requires
            old(self).wf(),
            old(self)@.lamport_clock.value < u32::MAX,
            match set_id {
                Some(id) => id.replica_id == old(self)@.replica_id,
                None => true,
            },
        ensures
            final(self).wf(),
            final(cx).same_place(old(cx)),
            result is Ok,
            final(self)@ == (State {
                selections: activated(
                    old(self)@.selections,
                    old(self)@.replica_id,
                    set_id,
                ),
                lamport_clock: ticked(old(self)@.lamport_clock),
                ..old(self)@
            }),
            final(cx)@ == old(cx)@ + send_effects(
                old(self)@,
                OperationModel::SetActiveSelections {
                    set_id,
                    lamport: old(self)@.lamport_clock,
                },
            ),
    {
        let replica_id = self.local_clock.replica_id;
        self.selections.activate(replica_id, set_id);
        let lamport_timestamp = self.lamport_clock.tick();
        assert(self.doc() == old(self).doc());
        self.send_operation(Operation::SetActiveSelections { set_id, lamport_timestamp }, cx);
        Ok(())
    }

    /// Removes a set of selections; an error if there is no such set.
    pub fn remove_selection_set(&mut self, set_id: SelectionSetId, cx: &mut ModelContext) -> (result:
        Result<(), Error>)
        requires
            old(self).wf(),
            old(self)@.lamport_clock.value < u32::MAX,
        ensures
            final(self).wf(),
            final(cx).same_place(old(cx)),
            match result {
                Ok(()) => {
                    &&& old(self)@.selections.contains_key(set_id)
                    &&& final(self)@ == (State {
                        selections: old(self)@.selections.remove(set_id),
                        lamport_clock: ticked(old(self)@.lamport_clock),
                        ..old(self)@
                    })
                    &&& final(cx)@ == old(cx)@ + selections_effects(old(self)@, set_id, None)
                },
                Err(error) => {
                    &&& !old(self)@.selections.contains_key(set_id)
                    &&& error == Error::InvalidSelectionSet(set_id)
                    &&& final(self)@ == old(self)@
                    &&& final(cx)@ == old(cx)@
                },
            },
    {
        if !self.selections.remove(set_id) {
            assert(self@.selections =~= old(self)@.selections);
            return Err(Error::InvalidSelectionSet(set_id));
        }
        let lamport_timestamp = self.lamport_clock.tick();
        cx.notify();
        assert(self.doc() == old(self).doc());
        self.send_operation(
            Operation::UpdateSelections { set_id, selections: None, lamport_timestamp },
            cx,
        );
        proof {
            assert(cx@ =~= old(cx)@ + selections_effects(old(self)@, set_id, None));
        }
        Ok(())
    }

    /// A set of selections; an error if there is no such set.
    pub fn selection_set(&self, set_id: SelectionSetId) -> (set: Result<&SelectionSet, Error>)
        ensures
            match set {
                Ok(set) => self@.selections.contains_key(set_id) && self@.selections[set_id]
                    == set@,
                Err(error) => !self@.selections.contains_key(set_id) && error
                    == Error::InvalidSelectionSet(set_id),
            },
    {
        match self.selections.get(set_id) {
            Some(set) => Ok(set),
            None => Err(Error::InvalidSelectionSet(set_id)),
        }
    }

    /// The ids of all the sets of selections, each with its set.
    pub fn selection_sets(&self) -> (sets: Vec<(SelectionSetId, &SelectionSet)>)
        ensures
            forall|i: int|
                0 <= i < sets@.len() ==> self@.selections.contains_key((#[trigger] sets@[i]).0)
                    && self@.selections[sets@[i].0] == sets@[i].1@,
            forall|i: int, j: int|
                0 <= i < j < sets@.len() ==> (#[trigger] sets@[i]).0 != (#[trigger] sets@[j]).0,
            forall|id: SelectionSetId| #[trigger]
                self@.selections.contains_key(id) ==> exists|i: int|
                    0 <= i < sets@.len() && (#[trigger] sets@[i]).0 == id,
    {
        let ids = self.selections.ids();
        let mut sets: Vec<(SelectionSetId, &SelectionSet)> = Vec::new();
        let mut i: usize = 0;
        while i < ids.len()
            invariant
                i <= ids@.len(),
                ids@.no_duplicates(),
                forall|id: SelectionSetId| #[trigger]
                    ids@.contains(id) <==> self@.selections.contains_key(id),
                sets@.len() == i,
                forall|j: int|
                    0 <= j < i ==> (#[trigger] sets@[j]).0 == ids@[j]
                        && self@.selections.contains_key(sets@[j].0)
                        && self@.selections[sets@[j].0] == sets@[j].1@,
            decreases ids@.len() - i,
        {
            let id = ids[i];
            assert(ids@.contains(ids@[i as int]));
            match self.selections.get(id) {
                Some(set) => {
                    sets.push((id, set));
                },
                None => {},
            }
            i = i + 1;
        }
        proof {
            assert forall|id: SelectionSetId| #[trigger]
                self@.selections.contains_key(id) implies exists|k: int|
                0 <= k < sets@.len() && (#[trigger] sets@[k]).0 == id by {
                assert(ids@.contains(id));
                let k = ids@.index_of(id);
                assert(sets@[k].0 == id);
            }
        }
        sets
    }

    /// Removes all the selections of a replica.
    pub fn remove_peer(&mut self, replica_id: ReplicaId, cx: &mut ModelContext)
        requires
            old(self).wf(),
        ensures
            final(self).wf(),
            final(cx).same_place(old(cx)),
            final(self)@ == (State {
                selections: without_replica(old(self)@.selections, replica_id),
                ..old(self)@
            }),
            final(cx)@ == old(cx)@.push(EffectModel::Notify),
    {
        self.selections.remove_replica(replica_id);
        assert(self.doc() == old(self).doc());
        cx.notify();
    }

    /// Where the selections of a set lie, each from the end that stays to the
    /// end that moves.
    pub fn selection_ranges(&self, set_id: SelectionSetId) -> (ranges: Result<
        Vec<Range<usize>>,
        Error,
    >)
        requires
            self.wf(),
        ensures
            match ranges {
                Ok(ranges) => {
                    &&& self@.selections.contains_key(set_id)
                    &&& crate::remote::pairs(ranges@) == selection_ranges_of(
                        self@.cells,
                        self@.selections[set_id].selections,
                    )
                },
                Err(error) => !self@.selections.contains_key(set_id) && error
                    == Error::InvalidSelectionSet(set_id),
            },
    {
        match self.selections.get(set_id) {
            Some(set) => {
                let content = self.content();
                let mut ranges: Vec<Range<usize>> = Vec::new();
                let mut i: usize = 0;
                while i < set.selections.len()
                    invariant
                        i <= set.selections@.len(),
                        self.wf(),
                        content.doc() == self.doc(),
                        content.version@ == self.version@,
                        ranges@.len() == i,
                        forall|j: int|
                            0 <= j < i ==> ((#[trigger] ranges@[j]).start as int, ranges@[j].end as int)
                                == selection_range(self@.cells, set.selections@[j]@),
                    decreases set.selections@.len() - i,
                {
                    let selection = &set.selections[i];
                    let start = selection.start.to_offset(&content);
                    let end = selection.end.to_offset(&content);
                    if selection.reversed {
                        ranges.push(end..start);
                    } else {
                        ranges.push(start..end);
                    }
                    i = i + 1;
                }
                assert(crate::remote::pairs(ranges@) =~= selection_ranges_of(
                    self@.cells,
                    self@.selections[set_id].selections,
                ));
                Ok(ranges)
            },
            None => Err(Error::InvalidSelectionSet(set_id)),
        }
    }

    /// Where all the selections lie, by the ids of their sets.
    pub fn all_selection_ranges(&self) -> (all: Vec<(SelectionSetId, Vec<Range<usize>>)>)
        requires
            self.wf(),
        ensures
            forall|i: int|
                0 <= i < all@.len() ==> {
                    let id = (#[trigger] all@[i]).0;
                    &&& self@.selections.contains_key(id)
                    &&& crate::remote::pairs(all@[i].1@) == selection_ranges_of(
                        self@.cells,
                        self@.selections[id].selections,
                    )
                },
            forall|i: int, j: int|
                0 <= i < j < all@.len() ==> (#[trigger] all@[i]).0 != (#[trigger] all@[j]).0,
            forall|id: SelectionSetId| #[trigger]
                self@.selections.contains_key(id) ==> exists|i: int|
                    0 <= i < all@.len() && (#[trigger] all@[i]).0 == id,
    {
        let ids = self.selections.ids();
        let mut all: Vec<(SelectionSetId, Vec<Range<usize>>)> = Vec::new();
        let mut i: usize = 0;
        while i < ids.len()
            invariant
                i <= ids@.len(),
                self.wf(),
                ids@.no_duplicates(),
                forall|id: SelectionSetId| #[trigger]
                    ids@.contains(id) <==> self@.selections.contains_key(id),
                all@.len() == i,
                forall|j: int|
                    0 <= j < i ==> {
                        let id = (#[trigger] all@[j]).0;
                        &&& id == ids@[j]
                        &&& self@.selections.contains_key(id)
                        &&& crate::remote::pairs(all@[j].1@) == selection_ranges_of(
                            self@.cells,
                            self@.selections[id].selections,
                        )
                    },
            decreases ids@.len() - i,
        {
            let id = ids[i];
            assert(ids@.contains(ids@[i as int]));
            match self.selection_ranges(id) {
                Ok(ranges) => {
                    all.push((id, ranges));
                },
                Err(_) => {},
            }
            i = i + 1;
        }
        proof {
            assert forall|id: SelectionSetId| #[trigger]
                self@.selections.contains_key(id) implies exists|k: int|
                0 <= k < all@.len() && (#[trigger] all@[k]).0 == id by {
                assert(ids@.contains(id));
                let k = ids@.index_of(id);
                assert(all@[k].0 == id);
            }
        }
        all
    }
}

} // verus!
