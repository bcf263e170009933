//! The sets of selections of a buffer.

use vstd::prelude::*;

use crate::clock::ReplicaId;
use crate::operation::{
    Selection, SelectionSet, SelectionSetId, SelectionSetModel, selection_models,
};

verus! {

/// What the sets of selections mean.
pub type Selections = Map<SelectionSetId, SelectionSetModel>;

spec fn set_map(entries: Seq<(SelectionSetId, SelectionSet)>) -> Selections {
    Map::new(
        |id: SelectionSetId| exists|i: int| 0 <= i < entries.len() && (#[trigger] entries[i]).0 == id,
        |id: SelectionSetId|
            entries[choose|i: int| 0 <= i < entries.len() && (#[trigger] entries[i]).0 == id].1@,
    )
}

spec fn distinct(entries: Seq<(SelectionSetId, SelectionSet)>) -> bool {
    forall|i: int, j: int|
        0 <= i < entries.len() && 0 <= j < entries.len() && i != j ==> (#[trigger] entries[i]).0 != (
        #[trigger] entries[j]).0
}

proof fn lemma_entry(entries: Seq<(SelectionSetId, SelectionSet)>, i: int)
    requires
        distinct(entries),
        0 <= i < entries.len(),
    ensures
        set_map(entries).contains_key(entries[i].0),
        set_map(entries)[entries[i].0] == entries[i].1@,
{
    let id = entries[i].0;
    let k = choose|k: int| 0 <= k < entries.len() && (#[trigger] entries[k]).0 == id;
    assert(entries[k].0 == id);
}

/// Two lists with the same ids and the same meanings in the same places mean
/// the same, but for what is said of each place.
proof fn lemma_set_map(
    entries: Seq<(SelectionSetId, SelectionSet)>,
    map: Selections,
)
    requires
        distinct(entries),
        forall|i: int|
            0 <= i < entries.len() ==> map.contains_key((#[trigger] entries[i]).0)
                && map[entries[i].0] == entries[i].1@,
        forall|id: SelectionSetId| #[trigger]
            map.contains_key(id) ==> exists|i: int|
                0 <= i < entries.len() && (#[trigger] entries[i]).0 == id,
    ensures
        set_map(entries) == map,
{
    assert forall|id: SelectionSetId| #[trigger] map.contains_key(id) implies set_map(
        entries,
    ).contains_key(id) && set_map(entries)[id] == map[id] by {
        let i = choose|i: int| 0 <= i < entries.len() && (#[trigger] entries[i]).0 == id;
        lemma_entry(entries, i);
    }
    assert(set_map(entries) =~= map);
}

/// The sets of selections, each under its id.
#[derive(Debug)]
pub struct SelectionMap {
    entries: Vec<(SelectionSetId, SelectionSet)>,
}

impl View for SelectionMap {
    type V = Selections;

    closed spec fn view(&self) -> Selections {
        set_map(self.entries@)
    }
}

/// The sets once those of `replica_id` other than `active` have been made
/// inactive, and `active` active.
pub open spec fn activated(
    sets: Selections,
    replica_id: ReplicaId,
    active: Option<SelectionSetId>,
) -> Selections {
    Map::new(
        |id: SelectionSetId| sets.contains_key(id),
        |id: SelectionSetId|
            if id.replica_id == replica_id {
                SelectionSetModel { active: Some(id) == active, ..sets[id] }
            } else {
                sets[id]
            },
    )
}

/// The sets without those of `replica_id`.
pub open spec fn without_replica(sets: Selections, replica_id: ReplicaId) -> Selections {
    Map::new(
        |id: SelectionSetId| sets.contains_key(id) && id.replica_id != replica_id,
        |id: SelectionSetId| sets[id],
    )
}

impl SelectionMap {
    #[verifier::type_invariant]
    spec fn inv(self) -> bool {
        distinct(self.entries@)
    }

    pub fn new() -> (map: SelectionMap)
        ensures
            map@ == Map::<SelectionSetId, SelectionSetModel>::empty(),
    {
        let map = SelectionMap { entries: Vec::new() };
        assert(map@ =~= Map::<SelectionSetId, SelectionSetModel>::empty());
        map
    }

    fn position(&self, id: SelectionSetId) -> (found: Option<usize>)
        ensures
            match found {
                Some(i) => i < self.entries@.len() && self.entries@[i as int].0 == id
                    && self@.contains_key(id) && self@[id] == self.entries@[i as int].1@,
                None => !self@.contains_key(id),
            },
    {
        proof {
            use_type_invariant(self);
        }
        let mut i: usize = 0;
        while i < self.entries.len()
            invariant
                i <= self.entries@.len(),
                distinct(self.entries@),
                forall|j: int| 0 <= j < i ==> (#[trigger] self.entries@[j]).0 != id,
            decreases self.entries@.len() - i,
        {
            if self.entries[i].0 == id {
                proof {
                    lemma_entry(self.entries@, i as int);
                }
                return Some(i);
            }
            i = i + 1;
        }
        None
    }

    pub fn contains_key(&self, id: SelectionSetId) -> (b: bool)
        ensures
            b == self@.contains_key(id),
    {
        self.position(id).is_some()
    }

    pub fn get(&self, id: SelectionSetId) -> (set: Option<&SelectionSet>)
        ensures
            match set {
                Some(set) => self@.contains_key(id) && self@[id] == set@,
                None => !self@.contains_key(id),
            },
    {
        match self.position(id) {
            Some(i) => Some(&self.entries[i].1),
            None => None,
        }
    }

    /// The ids of the sets.
    pub fn ids(&self) -> (ids: Vec<SelectionSetId>)
        ensures
            ids@.no_duplicates(),
            forall|id: SelectionSetId| #[trigger] ids@.contains(id) <==> self@.contains_key(id),
    {
        proof {
            use_type_invariant(self);
        }
        let mut ids: Vec<SelectionSetId> = Vec::new();
        let mut i: usize = 0;
        while i < self.entries.len()
            invariant
                i <= self.entries@.len(),
                ids@.len() == i,
                forall|j: int| 0 <= j < i ==> #[trigger] ids@[j] == self.entries@[j].0,
            decreases self.entries@.len() - i,
        {
            ids.push(self.entries[i].0);
            i = i + 1;
        }
        proof {
            assert forall|id: SelectionSetId| #[trigger] ids@.contains(id) <==> self@.contains_key(
                id,
            ) by {
                if ids@.contains(id) {
                    let k = ids@.index_of(id);
                    assert(self.entries@[k].0 == id);
                }
                if self@.contains_key(id) {
                    let k = choose|k: int|
                        0 <= k < self.entries@.len() && (#[trigger] self.entries@[k]).0 == id;
                    assert(ids@[k] == id);
                }
            }
        }
        ids
    }

    /// Files a set, in place of what was filed under the id before.
    pub fn insert(&mut self, id: SelectionSetId, set: SelectionSet)
        ensures
            final(self)@ == old(self)@.insert(id, set@),
    {
        let found = self.position(id);
        proof {
            use_type_invariant(&*self);
        }
        let mut taken = SelectionMap { entries: Vec::new() };
        core::mem::swap(self, &mut taken);
        let SelectionMap { mut entries } = taken;
        let ghost before = entries@;
        let ghost map = set_map(before).insert(id, set@);
        match found {
            Some(i) => {
                entries.set(i, (id, set));
            },
            None => {
                entries.push((id, set));
            },
        }
        proof {
            assert forall|k: int| 0 <= k < entries@.len() implies map.contains_key(
                (#[trigger] entries@[k]).0,
            ) && map[entries@[k].0] == entries@[k].1@ by {
                if k < before.len() {
                    lemma_entry(before, k);
                }
            }
            assert forall|key: SelectionSetId| #[trigger] map.contains_key(key) implies exists|
                k: int,
            |
                0 <= k < entries@.len() && (#[trigger] entries@[k]).0 == key by {
                if key == id {
                    let k = match found {
                        Some(i) => i as int,
                        None => before.len() as int,
                    };
                    assert(entries@[k].0 == key);
                } else {
                    let k = choose|k: int| 0 <= k < before.len() && (#[trigger] before[k]).0 == key;
                    assert(entries@[k].0 == key);
                }
            }
            lemma_set_map(entries@, map);
        }
        *self = SelectionMap { entries };
    }

    /// Puts other selections into a set; reports whether there is such a set.
    pub fn set_selections(&mut self, id: SelectionSetId, selections: Vec<Selection>) -> (known: bool)
        ensures
            known == old(self)@.contains_key(id),
            final(self)@ == if known {
                old(self)@.insert(
                    id,
                    SelectionSetModel {
                        selections: selection_models(selections@),
                        active: old(self)@[id].active,
                    },
                )
            } else {
                old(self)@
            },
    {
        match self.position(id) {
            Some(i) => {
                let active = self.entries[i].1.active;
                self.insert(id, SelectionSet { selections, active });
                true
            },
            None => false,
        }
    }

    /// Removes a set; reports whether there was such a set.
    pub fn remove(&mut self, id: SelectionSetId) -> (known: bool)
        ensures
            known == old(self)@.contains_key(id),
            final(self)@ == old(self)@.remove(id),
    {
        let found = self.position(id);
        match found {
            Some(i) => {
                proof {
                    use_type_invariant(&*self);
                }
                let mut taken = SelectionMap { entries: Vec::new() };
                core::mem::swap(self, &mut taken);
                let SelectionMap { mut entries } = taken;
                let ghost before = entries@;
                let ghost map = set_map(before).remove(id);
                let _ = entries.remove(i);
                proof {
                    assert forall|k: int| 0 <= k < entries@.len() implies map.contains_key(
                        (#[trigger] entries@[k]).0,
                    ) && map[entries@[k].0] == entries@[k].1@ by {
                        let j = if k < i {
                            k
                        } else {
                            k + 1
                        };
                        assert(entries@[k] == before[j]);
                        lemma_entry(before, j);
                    }
                    assert forall|key: SelectionSetId| #[trigger]
                        map.contains_key(key) implies exists|k: int|
                        0 <= k < entries@.len() && (#[trigger] entries@[k]).0 == key by {
                        let j = choose|j: int|
                            0 <= j < before.len() && (#[trigger] before[j]).0 == key;
                        let k = if j < i {
                            j
                        } else {
                            j - 1
                        };
                        assert(entries@[k].0 == key);
                    }
                    lemma_set_map(entries@, map);
                }
                *self = SelectionMap { entries };
                true
            },
            None => {
                assert(self@.remove(id) =~= self@);
                false
            },
        }
    }

    /// Makes one set of a replica active, and its others inactive.
    pub fn activate(&mut self, replica_id: ReplicaId, active: Option<SelectionSetId>)
        ensures
            final(self)@ == activated(old(self)@, replica_id, active),
    {
        proof {
            use_type_invariant(&*self);
        }
        let mut taken = SelectionMap { entries: Vec::new() };
        core::mem::swap(self, &mut taken);
        let SelectionMap { entries: mut rest } = taken;
        let ghost before = rest@;
        let ghost map = activated(set_map(before), replica_id, active);
        let mut entries: Vec<(SelectionSetId, SelectionSet)> = Vec::new();
        while rest.len() > 0
            invariant
                rest@ =~= before.skip(entries@.len() as int),
                entries@.len() <= before.len(),
                forall|k: int|
                    0 <= k < entries@.len() ==> {
                        let entry = #[trigger] entries@[k];
                        &&& entry.0 == before[k].0
                        &&& entry.1@ == if entry.0.replica_id == replica_id {
                            SelectionSetModel {
                                active: Some(entry.0) == active,
                                ..before[k].1@
                            }
                        } else {
                            before[k].1@
                        }
                    },
            decreases rest@.len(),
        {
            assert(rest@[0] == before[entries@.len() as int]);
            let (id, mut set) = rest.remove(0);
            if id.replica_id == replica_id {
                set.active = match active {
                    Some(active) => id == active,
                    None => false,
                };
            }
            entries.push((id, set));
        }
        proof {
            assert(entries@.len() == before.len());
            assert forall|k: int| 0 <= k < entries@.len() implies map.contains_key(
                (#[trigger] entries@[k]).0,
            ) && map[entries@[k].0] == entries@[k].1@ by {
                lemma_entry(before, k);
            }
            assert forall|key: SelectionSetId| #[trigger] map.contains_key(key) implies exists|
                k: int,
            |
                0 <= k < entries@.len() && (#[trigger] entries@[k]).0 == key by {
                let k = choose|k: int| 0 <= k < before.len() && (#[trigger] before[k]).0 == key;
                assert(entries@[k].0 == key);
            }
            lemma_set_map(entries@, map);
        }
        *self = SelectionMap { entries };
    }

    /// Removes all the sets of a replica.
    pub fn remove_replica(&mut self, replica_id: ReplicaId)
        ensures
            final(self)@ == without_replica(old(self)@, replica_id),
    {
        let ids = self.ids();
        let ghost start = self@;
        let mut i: usize = 0;
        while i < ids.len()
            invariant
                i <= ids@.len(),
                forall|id: SelectionSetId| #[trigger] ids@.contains(id) <==> start.contains_key(id),
                forall|id: SelectionSetId| #[trigger]
                    self@.contains_key(id) <==> start.contains_key(id) && (id.replica_id
                        != replica_id || !ids@.take(i as int).contains(id)),
                forall|id: SelectionSetId| #[trigger]
                    self@.contains_key(id) ==> self@[id] == start[id],
            decreases ids@.len() - i,
        {
            let ghost was = self@;
            let id = ids[i];
            proof {
                assert(ids@.take(i + 1) =~= ids@.take(i as int).push(id));
                assert forall|other: SelectionSetId| #[trigger]
                    ids@.take(i + 1).contains(other) <==> ids@.take(i as int).contains(other)
                    || other == id by {
                    let a = ids@.take(i as int);
                    if a.contains(other) {
                        let k = a.index_of(other);
                        assert(a.push(id)[k] == other);
                    }
                    assert(a.push(id)[a.len() as int] == id);
                    if a.push(id).contains(other) && other != id {
                        let k = a.push(id).index_of(other);
                        assert(a[k] == other);
                    }
                }
            }
            if id.replica_id == replica_id {
                let _ = self.remove(id);
            }
            i = i + 1;
        }
        proof {
            assert(ids@.take(ids@.len() as int) =~= ids@);
            assert(self@ =~= without_replica(start, replica_id));
        }
    }
}

impl Clone for SelectionMap {
    fn clone(&self) -> (copy: Self)
        ensures
            copy@ == self@,
    {
        proof {
            use_type_invariant(self);
        }
        let mut entries: Vec<(SelectionSetId, SelectionSet)> = Vec::new();
        let mut i: usize = 0;
        while i < self.entries.len()
            invariant
                i <= self.entries@.len(),
                entries@.len() == i,
                forall|j: int|
                    0 <= j < i ==> (#[trigger] entries@[j]).0 == self.entries@[j].0
                        && entries@[j].1@ == self.entries@[j].1@,
            decreases self.entries@.len() - i,
        {
            entries.push((self.entries[i].0, self.entries[i].1.clone()));
            i = i + 1;
        }
        proof {
            let map = self@;
            assert forall|k: int| 0 <= k < entries@.len() implies map.contains_key(
                (#[trigger] entries@[k]).0,
            ) && map[entries@[k].0] == entries@[k].1@ by {
                lemma_entry(self.entries@, k);
            }
            assert forall|key: SelectionSetId| #[trigger] map.contains_key(key) implies exists|
                k: int,
            |
                0 <= k < entries@.len() && (#[trigger] entries@[k]).0 == key by {
                let k = choose|k: int|
                    0 <= k < self.entries@.len() && (#[trigger] self.entries@[k]).0 == key;
                assert(entries@[k].0 == key);
            }
            lemma_set_map(entries@, map);
        }
        SelectionMap { entries }
    }
}

} // verus!
