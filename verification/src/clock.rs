//! Logical clocks: the per-replica counters that name operations, the Lamport
//! clock that orders them, and the version vectors that say which ones a
//! replica has seen.

use vstd::prelude::*;

verus! {

/// Identifies a replica.
pub type ReplicaId = u16;

/// The `value`-th operation of one replica.
#[derive(Clone, Copy, Debug, PartialEq, Eq, Structural, Hash)]
pub struct Local {
    pub replica_id: ReplicaId,
    pub value: u32,
}

/// A Lamport timestamp: ordered by value, ties broken by replica.
#[derive(Clone, Copy, Debug, PartialEq, Eq, Structural, Hash)]
pub struct Lamport {
    pub value: u32,
    pub replica_id: ReplicaId,
}

/// What a version vector means: the largest operation seen of each replica.
/// A replica without an entry has value zero.
pub type Version = Map<ReplicaId, u32>;

/// The largest operation of `replica_id` that `v` has seen.
pub open spec fn seen_of(v: Version, replica_id: ReplicaId) -> u32 {
    if v.dom().contains(replica_id) {
        v[replica_id]
    } else {
        0
    }
}

/// `v` has seen the operation `t`.
pub open spec fn observes(v: Version, t: Local) -> bool {
    seen_of(v, t.replica_id) >= t.value
}

/// `v` has seen one of the operations that `w` names.
pub open spec fn observes_any(v: Version, w: Version) -> bool {
    exists|r: ReplicaId| #[trigger]
        w.contains_key(r) && observes(v, Local { replica_id: r, value: w[r] })
}

/// `v` after it has seen `t`.
pub open spec fn observing(v: Version, t: Local) -> Version {
    v.insert(
        t.replica_id,
        if v.dom().contains(t.replica_id) && v[t.replica_id] >= t.value {
            v[t.replica_id]
        } else {
            t.value
        },
    )
}

/// `a` has seen everything that `b` has seen.
pub open spec fn includes(a: Version, b: Version) -> bool {
    forall|r: ReplicaId| seen_of(a, r) >= #[trigger] seen_of(b, r)
}

/// `a` has seen everything that `b` has seen, and something more.
pub open spec fn exceeds(a: Version, b: Version) -> bool {
    includes(a, b) && !includes(b, a)
}

/// `a` and `b` have seen the same operations.
pub open spec fn same_version(a: Version, b: Version) -> bool {
    includes(a, b) && includes(b, a)
}

/// The entries of `a` and `b` together, the larger value winning.
pub open spec fn joined(a: Version, b: Version) -> Version {
    Map::new(
        |r: ReplicaId| a.dom().contains(r) || b.dom().contains(r),
        |r: ReplicaId|
            if a.dom().contains(r) && b.dom().contains(r) {
                if a[r] >= b[r] {
                    a[r]
                } else {
                    b[r]
                }
            } else if a.dom().contains(r) {
                a[r]
            } else {
                b[r]
            },
    )
}

/// The entries of `a` and `b` together, the smaller value winning where both
/// have one.
pub open spec fn met(a: Version, b: Version) -> Version {
    Map::new(
        |r: ReplicaId| a.dom().contains(r) || b.dom().contains(r),
        |r: ReplicaId|
            if a.dom().contains(r) && b.dom().contains(r) {
                if a[r] <= b[r] {
                    a[r]
                } else {
                    b[r]
                }
            } else if a.dom().contains(r) {
                a[r]
            } else {
                b[r]
            },
    )
}

/// `a` comes after `b` in the Lamport order.
pub open spec fn after(a: Lamport, b: Lamport) -> bool {
    a.value > b.value || (a.value == b.value && a.replica_id > b.replica_id)
}

impl Local {
    /// The clock of a replica that has made no operation yet.
    pub fn new(replica_id: ReplicaId) -> (clock: Local)
        ensures
            clock.replica_id == replica_id,
            clock.value == 1,
    {
        Local { replica_id, value: 1 }
    }

    /// Names the next operation and moves on.
    pub fn tick(&mut self) -> (timestamp: Local)
        requires
            old(self).value < u32::MAX,
        ensures
            timestamp == *old(self),
            final(self).replica_id == old(self).replica_id,
            final(self).value == old(self).value + 1,
    {
        let timestamp = *self;
        self.value = self.value + 1;
        timestamp
    }

    /// Moves past an operation of this replica that came from elsewhere.
    pub fn observe(&mut self, timestamp: Local)
        requires
            timestamp.value < u32::MAX,
        ensures
            *final(self) == local_after(*old(self), timestamp),
    {
        if timestamp.replica_id == self.replica_id && timestamp.value >= self.value {
            self.value = timestamp.value + 1;
        }
    }
}

/// The clock `c` once it has met `t`.
pub open spec fn local_after(c: Local, t: Local) -> Local {
    if t.replica_id == c.replica_id && t.value >= c.value {
        Local { replica_id: c.replica_id, value: (t.value + 1) as u32 }
    } else {
        c
    }
}

/// The clock `c` once it has met `t`.
pub open spec fn lamport_after(c: Lamport, t: Lamport) -> Lamport {
    Lamport {
        replica_id: c.replica_id,
        value: (if c.value >= t.value {
            c.value
        } else {
            t.value
        } + 1) as u32,
    }
}

impl Lamport {
    /// The clock of a replica that has made no operation yet.
    pub fn new(replica_id: ReplicaId) -> (clock: Lamport)
        ensures
            clock.replica_id == replica_id,
            clock.value == 1,
    {
        Lamport { replica_id, value: 1 }
    }

    /// Names the next operation and moves on.
    pub fn tick(&mut self) -> (timestamp: Lamport)
        requires
            old(self).value < u32::MAX,
        ensures
            timestamp == *old(self),
            final(self).replica_id == old(self).replica_id,
            final(self).value == old(self).value + 1,
    {
        let timestamp = *self;
        self.value = self.value + 1;
        timestamp
    }

    /// Moves past a timestamp that came from elsewhere.
    pub fn observe(&mut self, timestamp: Lamport)
        requires
            old(self).value < u32::MAX,
            timestamp.value < u32::MAX,
        ensures
            *final(self) == lamport_after(*old(self), timestamp),
    {
        let base: u32 = if self.value >= timestamp.value {
            self.value
        } else {
            timestamp.value
        };
        self.value = base + 1;
    }

    /// Whether this timestamp comes after `other`.
    pub fn is_after(&self, other: &Lamport) -> (b: bool)
        ensures
            b == after(*self, *other),
    {
        self.value > other.value || (self.value == other.value && self.replica_id
            > other.replica_id)
    }
}

/// A version vector.
#[derive(Debug)]
pub struct Global {
    entries: Vec<Local>,
}

/// The entries of `s` as a map.
spec fn entry_map(s: Seq<Local>) -> Version {
    Map::new(
        |r: ReplicaId| exists|i: int| 0 <= i < s.len() && (#[trigger] s[i]).replica_id == r,
        |r: ReplicaId|
            s[choose|i: int| 0 <= i < s.len() && (#[trigger] s[i]).replica_id == r].value,
    )
}

spec fn distinct(s: Seq<Local>) -> bool {
    forall|i: int, j: int|
        0 <= i < s.len() && 0 <= j < s.len() && i != j ==> (#[trigger] s[i]).replica_id != (
        #[trigger] s[j]).replica_id
}

proof fn lemma_entry(s: Seq<Local>, i: int)
    requires
        distinct(s),
        0 <= i < s.len(),
    ensures
        entry_map(s).dom().contains(s[i].replica_id),
        entry_map(s)[s[i].replica_id] == s[i].value,
{
    let r = s[i].replica_id;
    let k = choose|k: int| 0 <= k < s.len() && (#[trigger] s[k]).replica_id == r;
    assert(s[k].replica_id == r);
}

impl View for Global {
    type V = Version;

    closed spec fn view(&self) -> Version {
        entry_map(self.entries@)
    }
}

impl Global {
    #[verifier::type_invariant]
    spec fn distinct_entries(self) -> bool {
        distinct(self.entries@)
    }

    /// A version that has seen nothing.
    pub fn new() -> (version: Global)
        ensures
            version@ == Map::<ReplicaId, u32>::empty(),
    {
        let version = Global { entries: Vec::new() };
        assert(version@ =~= Map::<ReplicaId, u32>::empty());
        version
    }

    /// The position of the entry of `replica_id`.
    fn position(&self, replica_id: ReplicaId) -> (found: Option<usize>)
        ensures
            match found {
                Some(i) => i < self.entries@.len() && self.entries@[i as int].replica_id
                    == replica_id && self@.dom().contains(replica_id) && self@[replica_id]
                    == self.entries@[i as int].value,
                None => !self@.dom().contains(replica_id),
            },
    {
        proof {
            use_type_invariant(self);
        }
        let mut i: usize = 0;
        while i < self.entries.len()
            invariant
                i <= self.entries@.len(),
                distinct(self.entries@),
                forall|j: int| 0 <= j < i ==> (#[trigger] self.entries@[j]).replica_id
                    != replica_id,
            decreases self.entries@.len() - i,
        {
            if self.entries[i].replica_id == replica_id {
                proof {
                    lemma_entry(self.entries@, i as int);
                }
                return Some(i);
            }
            i = i + 1;
        }
        None
    }

    /// The largest operation seen of `replica_id`; zero if none.
    pub fn get(&self, replica_id: ReplicaId) -> (value: u32)
        ensures
            value == seen_of(self@, replica_id),
    {
        match self.position(replica_id) {
            Some(i) => self.entries[i].value,
            None => 0,
        }
    }

    /// Sees one more operation.
    pub fn observe(&mut self, timestamp: Local)
        ensures
            final(self)@ == observing(old(self)@, timestamp),
    {
        proof {
            use_type_invariant(&*self);
        }
        let ghost before = self.entries@;
        match self.position(timestamp.replica_id) {
            Some(i) => {
                if timestamp.value > self.entries[i].value {
                    let mut entries: Vec<Local> = Vec::new();
                    std::mem::swap(&mut entries, &mut self.entries);
                    entries.set(i, timestamp);
                    proof {
                        lemma_replaced(before, i as int, timestamp);
                    }
                    self.entries = entries;
                }
                assert(self@ =~= observing(old(self)@, timestamp));
            },
            None => {
                let mut entries: Vec<Local> = Vec::new();
                std::mem::swap(&mut entries, &mut self.entries);
                entries.push(timestamp);
                proof {
                    lemma_pushed(before, timestamp);
                }
                self.entries = entries;
                assert(self@ =~= observing(old(self)@, timestamp));
            },
        }
    }

    /// Takes in everything that `other` has seen.
    pub fn join(&mut self, other: &Global)
        ensures
            final(self)@ == joined(old(self)@, other@),
    {
        let ghost start = self@;
        proof {
            use_type_invariant(other);
            assert(joined(start, entry_map(other.entries@.take(0))) =~= start);
        }
        let mut i: usize = 0;
        while i < other.entries.len()
            invariant
                i <= other.entries@.len(),
                distinct(other.entries@),
                self@ == joined(start, entry_map(other.entries@.take(i as int))),
            decreases other.entries@.len() - i,
        {
            self.observe(other.entries[i]);
            proof {
                lemma_take_entry(other.entries@, i as int);
                assert(self@ =~= joined(start, entry_map(other.entries@.take(i + 1))));
            }
            i = i + 1;
        }
        assert(other.entries@.take(other.entries@.len() as int) =~= other.entries@);
    }

    /// Lowers each entry to what `other` has seen, and takes in the entries
    /// that only `other` has.
    pub fn meet(&mut self, other: &Global)
        ensures
            final(self)@ == met(old(self)@, other@),
    {
        let ghost start = self@;
        proof {
            use_type_invariant(other);
            assert(met(start, entry_map(other.entries@.take(0))) =~= start);
        }
        let mut i: usize = 0;
        while i < other.entries.len()
            invariant
                i <= other.entries@.len(),
                distinct(other.entries@),
                self@ == met(start, entry_map(other.entries@.take(i as int))),
            decreases other.entries@.len() - i,
        {
            self.lower(other.entries[i]);
            proof {
                lemma_take_entry(other.entries@, i as int);
                assert(self@ =~= met(start, entry_map(other.entries@.take(i + 1))));
            }
            i = i + 1;
        }
        assert(other.entries@.take(other.entries@.len() as int) =~= other.entries@);
    }

    fn lower(&mut self, timestamp: Local)
        ensures
            final(self)@ == old(self)@.insert(
                timestamp.replica_id,
                if old(self)@.dom().contains(timestamp.replica_id) && old(
                    self,
                )@[timestamp.replica_id] <= timestamp.value {
                    old(self)@[timestamp.replica_id]
                } else {
                    timestamp.value
                },
            ),
    {
        proof {
            use_type_invariant(&*self);
        }
        let ghost before = self.entries@;
        match self.position(timestamp.replica_id) {
            Some(i) => {
                if timestamp.value < self.entries[i].value {
                    let mut entries: Vec<Local> = Vec::new();
                    std::mem::swap(&mut entries, &mut self.entries);
                    entries.set(i, timestamp);
                    proof {
                        lemma_replaced(before, i as int, timestamp);
                    }
                    self.entries = entries;
                }
                assert(self@ =~= old(self)@.insert(
                    timestamp.replica_id,
                    self@[timestamp.replica_id],
                ));
            },
            None => {
                let mut entries: Vec<Local> = Vec::new();
                std::mem::swap(&mut entries, &mut self.entries);
                entries.push(timestamp);
                proof {
                    lemma_pushed(before, timestamp);
                }
                self.entries = entries;
            },
        }
    }

    /// Whether this version has seen `timestamp`.
    pub fn observed(&self, timestamp: Local) -> (b: bool)
        ensures
            b == observes(self@, timestamp),
    {
        self.get(timestamp.replica_id) >= timestamp.value
    }

    /// Whether this version has seen something that `other` has not.
    pub fn changed_since(&self, other: &Global) -> (b: bool)
        ensures
            b == !includes(other@, self@),
    {
        proof {
            use_type_invariant(self);
        }
        let mut i: usize = 0;
        while i < self.entries.len()
            invariant
                i <= self.entries@.len(),
                distinct(self.entries@),
                forall|j: int|
                    0 <= j < i ==> seen_of(other@, (#[trigger] self.entries@[j]).replica_id)
                        >= self.entries@[j].value,
            decreases self.entries@.len() - i,
        {
            let entry = self.entries[i];
            if entry.value > other.get(entry.replica_id) {
                proof {
                    lemma_entry(self.entries@, i as int);
                    assert(seen_of(other@, entry.replica_id) < seen_of(self@, entry.replica_id));
                }
                return true;
            }
            i = i + 1;
        }
        proof {
            assert forall|r: ReplicaId| seen_of(other@, r) >= #[trigger] seen_of(self@, r) by {
                if self@.dom().contains(r) {
                    let k = choose|k: int|
                        0 <= k < self.entries@.len() && (#[trigger] self.entries@[k]).replica_id
                            == r;
                    lemma_entry(self.entries@, k);
                }
            }
        }
        false
    }

    /// Whether this version has seen everything that `other` has.
    pub fn at_least(&self, other: &Global) -> (b: bool)
        ensures
            b == includes(self@, other@),
    {
        !other.changed_since(self)
    }

    /// Whether this version has seen everything that `other` has, and more.
    pub fn greater_than(&self, other: &Global) -> (b: bool)
        ensures
            b == exceeds(self@, other@),
    {
        self.at_least(other) && !other.at_least(self)
    }

    /// Whether the two versions have seen the same operations.
    pub fn same_as(&self, other: &Global) -> (b: bool)
        ensures
            b == same_version(self@, other@),
    {
        self.at_least(other) && other.at_least(self)
    }

    /// Whether this version has seen any operation that `other` has an entry
    /// for.
    pub fn observed_any(&self, other: &Global) -> (b: bool)
        ensures
            b == observes_any(self@, other@),
    {
        proof {
            use_type_invariant(other);
        }
        let mut i: usize = 0;
        while i < other.entries.len()
            invariant
                i <= other.entries@.len(),
                distinct(other.entries@),
                forall|j: int| 0 <= j < i ==> !observes(self@, #[trigger] other.entries@[j]),
            decreases other.entries@.len() - i,
        {
            if self.observed(other.entries[i]) {
                proof {
                    lemma_entry(other.entries@, i as int);
                    assert(other@.contains_key(other.entries@[i as int].replica_id));
                }
                return true;
            }
            i = i + 1;
        }
        proof {
            assert forall|r: ReplicaId| #[trigger] other@.contains_key(r) implies !observes(
                self@,
                Local { replica_id: r, value: other@[r] },
            ) by {
                let k = choose|k: int|
                    0 <= k < other.entries@.len() && (#[trigger] other.entries@[k]).replica_id == r;
                lemma_entry(other.entries@, k);
                assert(!observes(self@, other.entries@[k]));
            }
        }
        false
    }

    /// The entries, each naming the largest operation seen of one replica.
    pub fn entries(&self) -> (entries: &Vec<Local>)
        ensures
            version_of(entries@) == self@,
            forall|i: int, j: int|
                0 <= i < entries@.len() && 0 <= j < entries@.len() && i != j ==> (
                #[trigger] entries@[i]).replica_id != (#[trigger] entries@[j]).replica_id,
    {
        proof {
            use_type_invariant(self);
            lemma_version_of(self.entries@);
        }
        &self.entries
    }
}

/// The version that has seen exactly the operations listed.
pub open spec fn version_of(s: Seq<Local>) -> Version
    decreases s.len(),
{
    if s.len() == 0 {
        Map::empty()
    } else {
        observing(version_of(s.drop_last()), s.last())
    }
}

proof fn lemma_version_of(s: Seq<Local>)
    requires
        distinct(s),
    ensures
        version_of(s) == entry_map(s),
    decreases s.len(),
{
    if s.len() == 0 {
        assert(version_of(s) =~= entry_map(s));
    } else {
        assert(distinct(s.drop_last())) by {
            assert forall|i: int, j: int|
                0 <= i < s.len() - 1 && 0 <= j < s.len() - 1 && i != j implies (
            #[trigger] s.drop_last()[i]).replica_id != (
            #[trigger] s.drop_last()[j]).replica_id by {
                assert(s[i].replica_id != s[j].replica_id);
            }
        }
        lemma_version_of(s.drop_last());
        assert(s.take(s.len() as int) =~= s);
        assert(s.take(s.len() - 1) =~= s.drop_last());
        lemma_take_entry(s, s.len() - 1);
        assert(version_of(s) =~= entry_map(s));
    }
}

impl Clone for Global {
    fn clone(&self) -> (copy: Self)
        ensures
            copy@ == self@,
    {
        proof {
            use_type_invariant(self);
        }
        let entries = self.entries.clone();
        assert(entries@ =~= self.entries@);
        Global { entries }
    }
}

proof fn lemma_replaced(s: Seq<Local>, i: int, t: Local)
    requires
        distinct(s),
        0 <= i < s.len(),
        s[i].replica_id == t.replica_id,
    ensures
        distinct(s.update(i, t)),
        entry_map(s.update(i, t)) == entry_map(s).insert(t.replica_id, t.value),
{
    let u = s.update(i, t);
    assert(distinct(u)) by {
        assert forall|a: int, b: int|
            0 <= a < u.len() && 0 <= b < u.len() && a != b implies (#[trigger] u[a]).replica_id != (
        #[trigger] u[b]).replica_id by {
            assert(s[a].replica_id != s[b].replica_id);
        }
    }
    assert forall|r: ReplicaId| entry_map(u).dom().contains(r) <==> entry_map(s).insert(
        t.replica_id,
        t.value,
    ).dom().contains(r) by {
        if entry_map(u).dom().contains(r) {
            let k = choose|k: int| 0 <= k < u.len() && (#[trigger] u[k]).replica_id == r;
            assert(s[k].replica_id == r);
        }
        if r == t.replica_id {
            assert(u[i].replica_id == r);
        } else if entry_map(s).dom().contains(r) {
            let k = choose|k: int| 0 <= k < s.len() && (#[trigger] s[k]).replica_id == r;
            assert(u[k].replica_id == r);
        }
    }
    assert forall|r: ReplicaId| #[trigger] entry_map(u).dom().contains(r) implies entry_map(u)[r]
        == entry_map(s).insert(t.replica_id, t.value)[r] by {
        let k = choose|k: int| 0 <= k < u.len() && (#[trigger] u[k]).replica_id == r;
        lemma_entry(u, k);
        lemma_entry(s, k);
        if r == t.replica_id {
            lemma_entry(u, i);
        }
    }
    assert(entry_map(u) =~= entry_map(s).insert(t.replica_id, t.value));
}

proof fn lemma_pushed(s: Seq<Local>, t: Local)
    requires
        distinct(s),
        !entry_map(s).dom().contains(t.replica_id),
    ensures
        distinct(s.push(t)),
        entry_map(s.push(t)) == entry_map(s).insert(t.replica_id, t.value),
{
    let u = s.push(t);
    assert(distinct(u)) by {
        assert forall|a: int, b: int|
            0 <= a < u.len() && 0 <= b < u.len() && a != b implies (#[trigger] u[a]).replica_id != (
        #[trigger] u[b]).replica_id by {
            if a < s.len() && b < s.len() {
                assert(s[a].replica_id != s[b].replica_id);
            } else if a < s.len() {
                assert(s[a].replica_id != t.replica_id);
            } else {
                assert(s[b].replica_id != t.replica_id);
            }
        }
    }
    assert forall|r: ReplicaId| entry_map(u).dom().contains(r) <==> entry_map(s).insert(
        t.replica_id,
        t.value,
    ).dom().contains(r) by {
        if entry_map(u).dom().contains(r) {
            let k = choose|k: int| 0 <= k < u.len() && (#[trigger] u[k]).replica_id == r;
            if k < s.len() {
                assert(s[k].replica_id == r);
            }
        }
        if r == t.replica_id {
            assert(u[s.len() as int].replica_id == r);
        } else if entry_map(s).dom().contains(r) {
            let k = choose|k: int| 0 <= k < s.len() && (#[trigger] s[k]).replica_id == r;
            assert(u[k].replica_id == r);
        }
    }
    assert forall|r: ReplicaId| #[trigger] entry_map(u).dom().contains(r) implies entry_map(u)[r]
        == entry_map(s).insert(t.replica_id, t.value)[r] by {
        let k = choose|k: int| 0 <= k < u.len() && (#[trigger] u[k]).replica_id == r;
        lemma_entry(u, k);
        if k < s.len() {
            lemma_entry(s, k);
        }
    }
    assert(entry_map(u) =~= entry_map(s).insert(t.replica_id, t.value));
}

proof fn lemma_take_entry(s: Seq<Local>, i: int)
    requires
        distinct(s),
        0 <= i < s.len(),
    ensures
        entry_map(s.take(i + 1)) == entry_map(s.take(i)).insert(s[i].replica_id, s[i].value),
        !entry_map(s.take(i)).dom().contains(s[i].replica_id),
{
    assert(distinct(s.take(i))) by {
        assert forall|a: int, b: int| 0 <= a < i && 0 <= b < i && a != b implies (
        #[trigger] s.take(i)[a]).replica_id != (#[trigger] s.take(i)[b]).replica_id by {
            assert(s[a].replica_id != s[b].replica_id);
        }
    }
    if entry_map(s.take(i)).dom().contains(s[i].replica_id) {
        let k = choose|k: int|
            0 <= k < s.take(i).len() && (#[trigger] s.take(i)[k]).replica_id == s[i].replica_id;
        assert(s[k].replica_id == s[i].replica_id);
        assert(false);
    }
    lemma_pushed(s.take(i), s[i]);
    assert(s.take(i + 1) =~= s.take(i).push(s[i]));
}

} // verus!
