//! A map from operations to values that remembers the order in which its keys
//! came in.

use std::collections::HashMap;

use vstd::prelude::*;

use crate::clock::Local;

verus! {

broadcast use vstd::std_specs::hash::group_hash_axioms;

/// The key under which an operation is filed.
pub closed spec fn key_of(id: Local) -> u64 {
    (id.replica_id * 0x1_0000_0000 + id.value) as u64
}

fn key(id: Local) -> (k: u64)
    ensures
        k == key_of(id),
{
    id.replica_id as u64 * 0x1_0000_0000u64 + id.value as u64
}

proof fn lemma_keys_differ(a: Local, b: Local)
    requires
        key_of(a) == key_of(b),
    ensures
        a == b,
{
}

/// A map keyed by operation.
#[derive(Debug)]
#[verifier::reject_recursive_types(V)]
pub struct LocalMap<V> {
    keys: Vec<Local>,
    values: HashMap<u64, V>,
}

impl<V> View for LocalMap<V> {
    type V = Map<Local, V>;

    closed spec fn view(&self) -> Map<Local, V> {
        Map::new(
            |id: Local| self.values@.contains_key(key_of(id)),
            |id: Local| self.values@[key_of(id)],
        )
    }
}

impl<V> LocalMap<V> {
    #[verifier::type_invariant]
    spec fn keys_match(self) -> bool {
        &&& self.keys@.no_duplicates()
        &&& forall|id: Local| #[trigger] self.keys@.contains(id) <==> self@.contains_key(id)
    }

    /// The empty map.
    pub fn new() -> (map: LocalMap<V>)
        ensures
            map@ == Map::<Local, V>::empty(),
    {
        let map = LocalMap { keys: Vec::new(), values: HashMap::new() };
        assert(map@ =~= Map::<Local, V>::empty());
        map
    }

    /// The keys, in the order in which they came in.
    pub fn keys(&self) -> (keys: &Vec<Local>)
        ensures
            keys@.no_duplicates(),
            forall|id: Local| #[trigger] keys@.contains(id) <==> self@.contains_key(id),
    {
        proof {
            use_type_invariant(self);
        }
        &self.keys
    }

    pub fn contains_key(&self, id: Local) -> (b: bool)
        ensures
            b == self@.contains_key(id),
    {
        self.values.contains_key(&key(id))
    }

    pub fn get(&self, id: Local) -> (value: Option<&V>)
        ensures
            match value {
                Some(value) => self@.contains_key(id) && self@[id] == *value,
                None => !self@.contains_key(id),
            },
    {
        self.values.get(&key(id))
    }

    /// Files `value` under `id`, in place of what was filed there before.
    pub fn insert(&mut self, id: Local, value: V) -> (previous: Option<V>)
        ensures
            final(self)@ == old(self)@.insert(id, value),
            match previous {
                Some(v) => old(self)@.contains_key(id) && old(self)@[id] == v,
                None => !old(self)@.contains_key(id),
            },
    {
        proof {
            use_type_invariant(&*self);
        }
        let known = self.contains_key(id);
        let mut empty = LocalMap::new();
        std::mem::swap(self, &mut empty);
        let LocalMap { mut keys, mut values } = empty;
        let ghost before = keys@;
        if !known {
            keys.push(id);
        }
        let previous = values.insert(key(id), value);
        proof {
            let after = Map::new(
                |k: Local| values@.contains_key(key_of(k)),
                |k: Local| values@[key_of(k)],
            );
            assert forall|k: Local| #[trigger] values@.contains_key(key_of(k)) <==> old(
                self,
            )@.contains_key(k) || k == id by {
                if key_of(k) == key_of(id) {
                    lemma_keys_differ(k, id);
                }
            }
            assert forall|k: Local| k != id implies key_of(k) != key_of(id) by {
                if key_of(k) == key_of(id) {
                    lemma_keys_differ(k, id);
                }
            }
            assert(after =~= old(self)@.insert(id, value));
            if !known {
                assert(!before.contains(id));
                assert(keys@ == before.push(id));
                assert forall|k: Local| #[trigger] keys@.contains(k) <==> before.contains(k) || k
                    == id by {
                    if before.contains(k) {
                        let i = before.index_of(k);
                        assert(keys@[i] == k);
                    }
                    assert(keys@[before.len() as int] == id);
                }
                assert(keys@.no_duplicates());
            }
        }
        *self = LocalMap { keys, values };
        assert(self@ =~= old(self)@.insert(id, value));
        previous
    }
}

impl<V: Clone> Clone for LocalMap<V> {
    fn clone(&self) -> (copy: Self)
        ensures
            copy@ == self@,
    {
        proof {
            use_type_invariant(self);
        }
        let keys = self.keys.clone();
        let values = self.values.clone();
        proof {
            assert(keys@ =~= self.keys@);
            let view = Map::new(
                |id: Local| values@.contains_key(key_of(id)),
                |id: Local| values@[key_of(id)],
            );
            assert(view =~= self@);
        }
        LocalMap { keys, values }
    }
}

} // verus!
