//! Which edits are undone: how often each edit has been undone and redone, and
//! by which operations.

use vstd::prelude::*;

use crate::clock::{Global, Local, Version, observes};
use crate::local_map::LocalMap;

verus! {

/// What an undo map means: for each edit the operations that undid or redid
/// it, each with the number of undos and redos of that edit up to then.
pub type UndoLog = Map<Local, Seq<(Local, u32)>>;

/// The entries of `edit_id`.
pub open spec fn undos_of(log: UndoLog, edit_id: Local) -> Seq<(Local, u32)> {
    if log.contains_key(edit_id) {
        log[edit_id]
    } else {
        Seq::empty()
    }
}

/// The largest count in `s`; zero if there is none.
pub open spec fn largest_count(s: Seq<(Local, u32)>) -> u32
    decreases s.len(),
{
    if s.len() == 0 {
        0
    } else if s.last().1 > largest_count(s.drop_last()) {
        s.last().1
    } else {
        largest_count(s.drop_last())
    }
}

/// The largest count in `s` of an operation that `v` has seen; zero if there
/// is none.
pub open spec fn largest_count_at(s: Seq<(Local, u32)>, v: Version) -> u32
    decreases s.len(),
{
    if s.len() == 0 {
        0
    } else if observes(v, s.last().0) && s.last().1 > largest_count_at(s.drop_last(), v) {
        s.last().1
    } else {
        largest_count_at(s.drop_last(), v)
    }
}

/// An odd number of undos and redos leaves the edit undone.
pub open spec fn undone(log: UndoLog, edit_id: Local) -> bool {
    largest_count(undos_of(log, edit_id)) % 2 == 1
}

/// The edit was undone as far as version `v` had seen.
pub open spec fn undone_at(log: UndoLog, edit_id: Local, v: Version) -> bool {
    largest_count_at(undos_of(log, edit_id), v) % 2 == 1
}

/// The log once the operation `undo_id` has set the given counts.
pub open spec fn log_with(log: UndoLog, undo_id: Local, counts: Map<Local, u32>) -> UndoLog {
    Map::new(
        |edit_id: Local| log.contains_key(edit_id) || counts.contains_key(edit_id),
        |edit_id: Local|
            if counts.contains_key(edit_id) {
                undos_of(log, edit_id).push((undo_id, counts[edit_id]))
            } else {
                log[edit_id]
            },
    )
}

#[derive(Debug)]
pub struct UndoMap {
    entries: LocalMap<Vec<(Local, u32)>>,
}

impl View for UndoMap {
    type V = UndoLog;

    closed spec fn view(&self) -> UndoLog {
        self.entries@.map_values(|v: Vec<(Local, u32)>| v@)
    }
}

impl Clone for UndoMap {
    fn clone(&self) -> (copy: Self)
        ensures
            copy@ == self@,
    {
        UndoMap { entries: self.entries.clone() }
    }
}

impl UndoMap {
    /// Nothing is undone.
    pub fn new() -> (map: UndoMap)
        ensures
            map@ == Map::<Local, Seq<(Local, u32)>>::empty(),
    {
        let map = UndoMap { entries: LocalMap::new() };
        assert(map@ =~= Map::<Local, Seq<(Local, u32)>>::empty());
        map
    }

    /// Records that the operation `undo_id` set the given counts.
    pub fn insert(&mut self, undo_id: Local, counts: &LocalMap<u32>)
        ensures
            final(self)@ == log_with(old(self)@, undo_id, counts@),
    {
        let keys = counts.keys();
        let mut i: usize = 0;
        let ghost before = self@;
        proof {
            assert(self@ =~= log_with(before, undo_id, counts@.restrict(keys@.take(0).to_set())));
        }
        while i < keys.len()
            invariant
                i <= keys@.len(),
                keys@.no_duplicates(),
                forall|id: Local| #[trigger] keys@.contains(id) <==> counts@.contains_key(id),
                self@ == log_with(
                    before,
                    undo_id,
                    counts@.restrict(keys@.take(i as int).to_set()),
                ),
            decreases keys@.len() - i,
        {
            let edit_id = keys[i];
            proof {
                assert(keys@.contains(edit_id));
            }
            let ghost now = self@;
            match counts.get(edit_id) {
                Some(count) => {
                    self.push(edit_id, undo_id, *count);
                },
                None => {},
            }
            proof {
                let some = keys@.take(i as int).to_set();
                let more = keys@.take(i + 1).to_set();
                assert(!some.contains(edit_id)) by {
                    if some.contains(edit_id) {
                        let j = keys@.take(i as int).index_of(edit_id);
                        assert(keys@[j] == keys@[i as int]);
                    }
                }
                assert(keys@.take(i + 1) =~= keys@.take(i as int).push(edit_id));
                assert forall|k: Local| more.contains(k) <==> some.contains(k) || k == edit_id by {
                    if some.contains(k) {
                        let j = keys@.take(i as int).index_of(k);
                        assert(keys@.take(i + 1)[j] == k);
                    }
                    assert(keys@.take(i + 1)[i as int] == edit_id);
                }
                assert(undos_of(now, edit_id) =~= undos_of(before, edit_id));
                assert(self@ =~= log_with(before, undo_id, counts@.restrict(more)));
            }
            i = i + 1;
        }
        proof {
            assert(keys@.take(keys@.len() as int) =~= keys@);
            assert(counts@.restrict(keys@.to_set()) =~= counts@);
        }
    }

    fn push(&mut self, edit_id: Local, undo_id: Local, count: u32)
        ensures
            final(self)@ == old(self)@.insert(
                edit_id,
                undos_of(old(self)@, edit_id).push((undo_id, count)),
            ),
    {
        let previous = self.entries.insert(edit_id, Vec::new());
        let mut undos = match previous {
            Some(undos) => undos,
            None => Vec::new(),
        };
        undos.push((undo_id, count));
        self.entries.insert(edit_id, undos);
        assert(self@ =~= old(self)@.insert(
            edit_id,
            undos_of(old(self)@, edit_id).push((undo_id, count)),
        ));
    }

    /// Whether the edit is undone.
    pub fn is_undone(&self, edit_id: Local) -> (b: bool)
        ensures
            b == undone(self@, edit_id),
    {
        self.undo_count(edit_id) % 2 == 1
    }

    /// Whether the edit was undone as far as `version` had seen.
    pub fn was_undone(&self, edit_id: Local, version: &Global) -> (b: bool)
        ensures
            b == undone_at(self@, edit_id, version@),
    {
        match self.entries.get(edit_id) {
            Some(undos) => {
                let mut i: usize = 0;
                let mut count: u32 = 0;
                while i < undos.len()
                    invariant
                        i <= undos@.len(),
                        count == largest_count_at(undos@.take(i as int), version@),
                    decreases undos@.len() - i,
                {
                    proof {
                        assert(undos@.take(i + 1).drop_last() =~= undos@.take(i as int));
                    }
                    let (undo_id, undo_count) = undos[i];
                    if version.observed(undo_id) && undo_count > count {
                        count = undo_count;
                    }
                    i = i + 1;
                }
                assert(undos@.take(undos@.len() as int) =~= undos@);
                count % 2 == 1
            },
            None => false,
        }
    }

    /// How many times the edit has been undone and redone.
    pub fn undo_count(&self, edit_id: Local) -> (count: u32)
        ensures
            count == largest_count(undos_of(self@, edit_id)),
    {
        match self.entries.get(edit_id) {
            Some(undos) => {
                let mut i: usize = 0;
                let mut count: u32 = 0;
                while i < undos.len()
                    invariant
                        i <= undos@.len(),
                        count == largest_count(undos@.take(i as int)),
                    decreases undos@.len() - i,
                {
                    proof {
                        assert(undos@.take(i + 1).drop_last() =~= undos@.take(i as int));
                    }
                    if undos[i].1 > count {
                        count = undos[i].1;
                    }
                    i = i + 1;
                }
                assert(undos@.take(undos@.len() as int) =~= undos@);
                count
            },
            None => 0,
        }
    }
}

} // verus!
