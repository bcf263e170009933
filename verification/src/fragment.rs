//! Fragments: runs of text that were inserted together and deleted together.

use vstd::prelude::*;

use crate::clock::{
    Global, Lamport, Local, ReplicaId, Version, includes, joined, met, observes, observes_any,
    observing, seen_of,
};
use crate::undo_map::{UndoLog, UndoMap, undone, undone_at};

verus! {

/// Names an insertion, and places it in the Lamport order.
#[derive(Clone, Copy, Debug, PartialEq, Eq, Structural)]
pub struct InsertionTimestamp {
    pub replica_id: ReplicaId,
    pub local: u32,
    pub lamport: u32,
}

/// The operation that an insertion timestamp names.
pub open spec fn local_of(t: InsertionTimestamp) -> Local {
    Local { replica_id: t.replica_id, value: t.local }
}

/// The place of an insertion timestamp in the Lamport order.
pub open spec fn lamport_of(t: InsertionTimestamp) -> Lamport {
    Lamport { replica_id: t.replica_id, value: t.lamport }
}

impl InsertionTimestamp {
    pub fn local(&self) -> (local: Local)
        ensures
            local == local_of(*self),
    {
        Local { replica_id: self.replica_id, value: self.local }
    }

    pub fn lamport(&self) -> (lamport: Lamport)
        ensures
            lamport == lamport_of(*self),
    {
        Lamport { replica_id: self.replica_id, value: self.lamport }
    }
}

/// What a fragment means, apart from its text.
#[verifier::ext_equal]
pub ghost struct Piece {
    pub timestamp: InsertionTimestamp,
    pub len: nat,
    pub visible: bool,
    pub deletions: Set<Local>,
    pub max_undos: Version,
}

/// Text inserted at `timestamp` and deleted by `deletions` is shown: the
/// insertion is not undone, and every deletion is.
pub open spec fn shown(timestamp: InsertionTimestamp, deletions: Set<Local>, log: UndoLog) -> bool {
    &&& !undone(log, local_of(timestamp))
    &&& forall|d: Local| #[trigger] deletions.contains(d) ==> undone(log, d)
}

/// The same as far as version `v` had seen: the insertion had been seen and
/// was not undone, and every deletion had not been seen or was undone.
pub open spec fn shown_at(
    timestamp: InsertionTimestamp,
    deletions: Set<Local>,
    v: Version,
    log: UndoLog,
) -> bool {
    &&& observes(v, local_of(timestamp))
    &&& !undone_at(log, local_of(timestamp), v)
    &&& forall|d: Local| #[trigger]
        deletions.contains(d) ==> !observes(v, d) || undone_at(log, d, v)
}

/// A run of text that was inserted together and deleted together.
#[derive(Debug)]
pub struct Fragment {
    pub timestamp: InsertionTimestamp,
    pub len: usize,
    pub visible: bool,
    pub deletions: Vec<Local>,
    pub max_undos: Global,
}

impl View for Fragment {
    type V = Piece;

    open spec fn view(&self) -> Piece {
        Piece {
            timestamp: self.timestamp,
            len: self.len as nat,
            visible: self.visible,
            deletions: self.deletions@.to_set(),
            max_undos: self.max_undos@,
        }
    }
}

impl Clone for Fragment {
    fn clone(&self) -> (copy: Self)
        ensures
            copy@ == self@,
    {
        let deletions = self.deletions.clone();
        assert(deletions@ =~= self.deletions@);
        Fragment {
            timestamp: self.timestamp,
            len: self.len,
            visible: self.visible,
            deletions,
            max_undos: self.max_undos.clone(),
        }
    }
}

/// The fragment of a fresh insertion of `len` bytes.
pub open spec fn inserted_piece(timestamp: InsertionTimestamp, len: nat) -> Piece {
    Piece {
        timestamp,
        len,
        visible: true,
        deletions: Set::empty(),
        max_undos: Map::empty(),
    }
}

impl Fragment {
    /// A fragment of text that has just been inserted.
    pub fn inserted(timestamp: InsertionTimestamp, len: usize) -> (fragment: Fragment)
        ensures
            fragment@ == inserted_piece(timestamp, len as nat),
    {
        let fragment = Fragment {
            timestamp,
            len,
            visible: true,
            deletions: Vec::new(),
            max_undos: Global::new(),
        };
        assert(fragment@.deletions =~= Set::empty());
        fragment
    }

    /// Adds one deletion.
    pub fn delete(&mut self, deletion: Local)
        ensures
            final(self)@ == (Piece { deletions: old(self)@.deletions.insert(deletion), ..old(self)@
            }),
    {
        let ghost before = self.deletions@;
        if !self.is_deleted_by(deletion) {
            self.deletions.push(deletion);
            proof {
                assert forall|d: Local| #[trigger] self.deletions@.contains(d) <==> before.contains(
                    d,
                ) || d == deletion by {
                    if before.contains(d) {
                        let i = before.index_of(d);
                        assert(self.deletions@[i] == d);
                    }
                    assert(self.deletions@[before.len() as int] == deletion);
                }
            }
        }
        assert(self@.deletions =~= old(self)@.deletions.insert(deletion));
    }

    /// Whether the operation is among the deletions.
    pub fn is_deleted_by(&self, deletion: Local) -> (b: bool)
        ensures
            b == self@.deletions.contains(deletion),
    {
        let mut i: usize = 0;
        while i < self.deletions.len()
            invariant
                i <= self.deletions@.len(),
                forall|j: int| 0 <= j < i ==> #[trigger] self.deletions@[j] != deletion,
            decreases self.deletions@.len() - i,
        {
            if self.deletions[i] == deletion {
                return true;
            }
            i = i + 1;
        }
        false
    }

    /// Whether the text is shown, going by what is undone now.
    pub fn is_visible(&self, undos: &UndoMap) -> (b: bool)
        ensures
            b == shown(self@.timestamp, self@.deletions, undos@),
    {
        if undos.is_undone(self.timestamp.local()) {
            return false;
        }
        let mut i: usize = 0;
        while i < self.deletions.len()
            invariant
                i <= self.deletions@.len(),
                forall|j: int| 0 <= j < i ==> undone(undos@, #[trigger] self.deletions@[j]),
            decreases self.deletions@.len() - i,
        {
            if !undos.is_undone(self.deletions[i]) {
                proof {
                    assert(self@.deletions.contains(self.deletions@[i as int]));
                }
                return false;
            }
            i = i + 1;
        }
        true
    }

    /// Whether the text was shown at `version`.
    pub fn was_visible(&self, version: &Global, undos: &UndoMap) -> (b: bool)
        ensures
            b == shown_at(self@.timestamp, self@.deletions, version@, undos@),
    {
        if !version.observed(self.timestamp.local()) || undos.was_undone(
            self.timestamp.local(),
            version,
        ) {
            return false;
        }
        let mut i: usize = 0;
        while i < self.deletions.len()
            invariant
                i <= self.deletions@.len(),
                forall|j: int|
                    0 <= j < i ==> !observes(version@, #[trigger] self.deletions@[j]) || undone_at(
                        undos@,
                        self.deletions@[j],
                        version@,
                    ),
            decreases self.deletions@.len() - i,
        {
            let deletion = self.deletions[i];
            if version.observed(deletion) && !undos.was_undone(deletion, version) {
                proof {
                    assert(self@.deletions.contains(deletion));
                }
                return false;
            }
            i = i + 1;
        }
        true
    }

    /// Whether the insertion had been seen at `version`.
    pub fn is_observed(&self, version: &Global) -> (b: bool)
        ensures
            b == observes(version@, local_of(self@.timestamp)),
    {
        version.observed(self.timestamp.local())
    }

    /// The summary of this fragment alone.
    pub fn summary(&self) -> (summary: FragmentSummary)
        ensures
            summary@ == piece_summary(self@),
    {
        let mut max_version = Global::new();
        max_version.observe(self.timestamp.local());
        observe_all(&mut max_version, &self.deletions);
        max_version.join(&self.max_undos);

        let mut min_insertion_version = Global::new();
        min_insertion_version.observe(self.timestamp.local());
        let max_insertion_version = min_insertion_version.clone();
        let text = if self.visible {
            FragmentTextSummary { visible: self.len, deleted: 0 }
        } else {
            FragmentTextSummary { visible: 0, deleted: self.len }
        };
        FragmentSummary { text, max_version, min_insertion_version, max_insertion_version }
    }
}

/// The version `v` once it has seen every deletion of `s`.
pub open spec fn having_seen(v: Version, s: Set<Local>) -> Version {
    Map::new(
        |r: ReplicaId|
            v.contains_key(r) || exists|d: Local| #[trigger] s.contains(d) && d.replica_id == r,
        |r: ReplicaId| largest_seen(v, s, r),
    )
}

/// The least value that is no smaller than what `v` and `s` have of `r`.
pub open spec fn largest_seen(v: Version, s: Set<Local>, r: ReplicaId) -> u32 {
    choose|value: u32| is_largest_seen(v, s, r, value)
}

/// `value` is the largest value that `v` and `s` have of `r`.
pub open spec fn is_largest_seen(v: Version, s: Set<Local>, r: ReplicaId, value: u32) -> bool {
    &&& v.contains_key(r) ==> v[r] <= value
    &&& forall|d: Local| #[trigger] s.contains(d) && d.replica_id == r ==> d.value <= value
    &&& (v.contains_key(r) && v[r] == value) || exists|d: Local| #[trigger]
        s.contains(d) && d.replica_id == r && d.value == value
}

/// There is a largest value, if there is any.
proof fn lemma_largest_exists(v: Version, s: Set<Local>, r: ReplicaId, bound: u32)
    requires
        v.contains_key(r) || exists|d: Local| #[trigger] s.contains(d) && d.replica_id == r,
        v.contains_key(r) ==> v[r] <= bound,
        forall|d: Local| #[trigger] s.contains(d) && d.replica_id == r ==> d.value <= bound,
    ensures
        exists|value: u32| is_largest_seen(v, s, r, value),
    decreases bound,
{
    if (v.contains_key(r) && v[r] == bound) || exists|d: Local| #[trigger]
        s.contains(d) && d.replica_id == r && d.value == bound {
        assert(is_largest_seen(v, s, r, bound));
    } else {
        if bound == 0 {
            if !v.contains_key(r) {
                let d = choose|d: Local| #[trigger] s.contains(d) && d.replica_id == r;
                assert(d.value == 0);
            }
        }
        lemma_largest_exists(v, s, r, (bound - 1) as u32);
    }
}

/// A version that has seen more has seen the operations in question, and what
/// it had seen before.
pub proof fn lemma_having_seen(v: Version, s: Set<Local>, t: Local)
    requires
        observes(v, t) || s.contains(t),
    ensures
        observes(having_seen(v, s), t),
{
    let r = t.replica_id;
    if having_seen(v, s).contains_key(r) {
        lemma_largest_exists(v, s, r, u32::MAX);
        assert(is_largest_seen(v, s, r, largest_seen(v, s, r)));
    }
}

/// A version that has seen more has seen nothing besides.
pub proof fn lemma_having_seen_only(v: Version, s: Set<Local>, t: Local)
    requires
        observes(having_seen(v, s), t),
        !observes(v, t),
    ensures
        exists|d: Local| #[trigger]
            s.contains(d) && d.replica_id == t.replica_id && d.value >= t.value,
{
    let r = t.replica_id;
    if having_seen(v, s).contains_key(r) {
        lemma_largest_exists(v, s, r, u32::MAX);
        assert(is_largest_seen(v, s, r, largest_seen(v, s, r)));
    }
}

spec fn deletions_seen(v: Version, s: Seq<Local>) -> Version
    decreases s.len(),
{
    if s.len() == 0 {
        v
    } else {
        observing(deletions_seen(v, s.drop_last()), s.last())
    }
}

proof fn lemma_deletions_seen(v: Version, s: Seq<Local>, i: int)
    requires
        0 <= i < s.len(),
    ensures
        deletions_seen(v, s.take(i + 1)) == observing(deletions_seen(v, s.take(i)), s[i]),
{
    assert(s.take(i + 1).drop_last() =~= s.take(i));
}

proof fn lemma_deletions_seen_entry(v: Version, s: Seq<Local>, r: ReplicaId)
    ensures
        deletions_seen(v, s).contains_key(r) <==> v.contains_key(r) || exists|d: Local| #[trigger]
            s.to_set().contains(d) && d.replica_id == r,
        deletions_seen(v, s).contains_key(r) ==> is_largest_seen(
            v,
            s.to_set(),
            r,
            deletions_seen(v, s)[r],
        ),
    decreases s.len(),
{
    if s.len() == 0 {
        assert(s.to_set() =~= Set::empty());
    } else {
        let t = s.drop_last();
        lemma_deletions_seen_entry(v, t, r);
        assert forall|d: Local| #[trigger] s.to_set().contains(d) <==> t.to_set().contains(d) || d
            == s.last() by {
            if s.contains(d) {
                let i = s.index_of(d);
                if i < t.len() {
                    assert(t[i] == d);
                }
            }
            if t.contains(d) {
                let i = t.index_of(d);
                assert(s[i] == d);
            }
            assert(s[s.len() - 1] == s.last());
        }
        assert(s.to_set().contains(s.last()));
        if deletions_seen(v, t).contains_key(r) {
            let value = deletions_seen(v, t)[r];
            if exists|d: Local| #[trigger]
                t.to_set().contains(d) && d.replica_id == r && d.value == value {
                let d = choose|d: Local| #[trigger]
                    t.to_set().contains(d) && d.replica_id == r && d.value == value;
                assert(s.to_set().contains(d));
            }
        }
    }
}

proof fn lemma_deletions_seen_set(v: Version, s: Seq<Local>)
    ensures
        deletions_seen(v, s) == having_seen(v, s.to_set()),
{
    let a = deletions_seen(v, s);
    let b = having_seen(v, s.to_set());
    assert forall|r: ReplicaId| a.contains_key(r) <==> b.contains_key(r) by {
        lemma_deletions_seen_entry(v, s, r);
    }
    assert forall|r: ReplicaId| #[trigger] a.contains_key(r) implies a[r] == b[r] by {
        lemma_deletions_seen_entry(v, s, r);
        assert(is_largest_seen(v, s.to_set(), r, a[r]));
        let value = largest_seen(v, s.to_set(), r);
        assert(is_largest_seen(v, s.to_set(), r, value));
    }
    assert(a =~= b);
}

/// Sees all the given operations.
pub fn observe_all(version: &mut Global, ids: &Vec<Local>)
    ensures
        final(version)@ == having_seen(old(version)@, ids@.to_set()),
{
    let ghost start = version@;
    let mut i: usize = 0;
    assert(deletions_seen(start, ids@.take(0)) =~= start);
    while i < ids.len()
        invariant
            i <= ids@.len(),
            version@ == deletions_seen(start, ids@.take(i as int)),
        decreases ids@.len() - i,
    {
        version.observe(ids[i]);
        proof {
            lemma_deletions_seen(start, ids@, i as int);
        }
        i = i + 1;
    }
    assert(ids@.take(ids@.len() as int) =~= ids@);
    proof {
        lemma_deletions_seen_set(start, ids@);
    }
}

/// How much visible and how much deleted text there is.
#[derive(Clone, Copy, Debug, PartialEq, Eq, Structural)]
pub struct FragmentTextSummary {
    pub visible: usize,
    pub deleted: usize,
}

impl FragmentTextSummary {
    /// The summary of no text.
    pub fn zero() -> (summary: FragmentTextSummary)
        ensures
            summary.visible == 0,
            summary.deleted == 0,
    {
        FragmentTextSummary { visible: 0, deleted: 0 }
    }

    /// Adds the text of another summary.
    pub fn add_summary(&mut self, summary: &FragmentSummary)
        requires
            old(self).visible + summary.text.visible <= usize::MAX,
            old(self).deleted + summary.text.deleted <= usize::MAX,
        ensures
            final(self).visible == old(self).visible + summary.text.visible,
            final(self).deleted == old(self).deleted + summary.text.deleted,
    {
        self.visible = self.visible + summary.text.visible;
        self.deleted = self.deleted + summary.text.deleted;
    }
}

/// A summary of a run of fragments.
#[derive(Debug)]
pub struct FragmentSummary {
    pub text: FragmentTextSummary,
    pub max_version: Global,
    pub min_insertion_version: Global,
    pub max_insertion_version: Global,
}

/// What a summary means.
#[verifier::ext_equal]
pub ghost struct PieceSummary {
    pub visible: nat,
    pub deleted: nat,
    pub max_version: Version,
    pub min_insertion_version: Version,
    pub max_insertion_version: Version,
}

impl View for FragmentSummary {
    type V = PieceSummary;

    open spec fn view(&self) -> PieceSummary {
        PieceSummary {
            visible: self.text.visible as nat,
            deleted: self.text.deleted as nat,
            max_version: self.max_version@,
            min_insertion_version: self.min_insertion_version@,
            max_insertion_version: self.max_insertion_version@,
        }
    }
}

/// The version that has seen one insertion.
pub open spec fn insertion_version(t: InsertionTimestamp) -> Version {
    observing(Map::empty(), local_of(t))
}

/// The summary of one fragment: its length, every operation that touched it,
/// and its insertion.
pub open spec fn piece_summary(p: Piece) -> PieceSummary {
    PieceSummary {
        visible: if p.visible {
            p.len
        } else {
            0
        },
        deleted: if p.visible {
            0
        } else {
            p.len
        },
        max_version: joined(
            having_seen(insertion_version(p.timestamp), p.deletions),
            p.max_undos,
        ),
        min_insertion_version: insertion_version(p.timestamp),
        max_insertion_version: insertion_version(p.timestamp),
    }
}

/// The summary of two runs of fragments in a row.
pub open spec fn summaries_joined(a: PieceSummary, b: PieceSummary) -> PieceSummary {
    PieceSummary {
        visible: a.visible + b.visible,
        deleted: a.deleted + b.deleted,
        max_version: joined(a.max_version, b.max_version),
        min_insertion_version: met(a.min_insertion_version, b.min_insertion_version),
        max_insertion_version: joined(a.max_insertion_version, b.max_insertion_version),
    }
}

/// The summary of no fragment.
pub open spec fn no_pieces() -> PieceSummary {
    PieceSummary {
        visible: 0,
        deleted: 0,
        max_version: Map::empty(),
        min_insertion_version: Map::empty(),
        max_insertion_version: Map::empty(),
    }
}

/// The summary of a run of fragments.
pub open spec fn run_summary(run: Seq<Piece>) -> PieceSummary
    decreases run.len(),
{
    if run.len() == 0 {
        no_pieces()
    } else {
        summaries_joined(run_summary(run.drop_last()), piece_summary(run.last()))
    }
}

impl Default for FragmentSummary {
    fn default() -> (summary: Self)
        ensures
            summary@ == no_pieces(),
    {
        FragmentSummary {
            text: FragmentTextSummary::zero(),
            max_version: Global::new(),
            min_insertion_version: Global::new(),
            max_insertion_version: Global::new(),
        }
    }
}

impl FragmentSummary {
    /// Adds the summary of the fragments that follow.
    pub fn add_summary(&mut self, other: &FragmentSummary)
        requires
            old(self).text.visible + other.text.visible <= usize::MAX,
            old(self).text.deleted + other.text.deleted <= usize::MAX,
        ensures
            final(self)@ == summaries_joined(old(self)@, other@),
    {
        self.text.add_summary(other);
        self.max_version.join(&other.max_version);
        self.min_insertion_version.meet(&other.min_insertion_version);
        self.max_insertion_version.join(&other.max_insertion_version);
    }
}

/// An offset that counts only the text whose insertion some version had seen;
/// or the mark that a run of fragments cannot be counted as a whole.
#[derive(Clone, Copy, Debug, PartialEq, Eq, Structural)]
pub enum VersionedOffset {
    Offset(usize),
    InvalidVersion,
}

/// `v` had seen one of the earliest insertions of each replica in the run.
pub open spec fn saw_some_insertion(v: Version, s: PieceSummary) -> bool {
    observes_any(v, s.min_insertion_version)
}

/// The offset `at` once it has moved over a run of fragments: past all of its
/// text if `v` had seen every insertion in it, past none of it if `v` had seen
/// none, and not countable if it had seen only some.
pub open spec fn offset_past(at: VersionedOffset, s: PieceSummary, v: Version) -> VersionedOffset {
    match at {
        VersionedOffset::Offset(offset) => if includes(v, s.max_insertion_version) {
            VersionedOffset::Offset((offset + s.visible + s.deleted) as usize)
        } else if saw_some_insertion(v, s) {
            VersionedOffset::InvalidVersion
        } else {
            at
        },
        VersionedOffset::InvalidVersion => at,
    }
}

impl VersionedOffset {
    /// The start.
    pub fn zero() -> (offset: VersionedOffset)
        ensures
            offset == VersionedOffset::Offset(0),
    {
        VersionedOffset::Offset(0)
    }

    pub fn offset(&self) -> (offset: usize)
        requires
            *self is Offset,
        ensures
            *self == VersionedOffset::Offset(offset),
    {
        match self {
            VersionedOffset::Offset(offset) => *offset,
            VersionedOffset::InvalidVersion => 0,
        }
    }

    /// Moves over a run of fragments.
    pub fn add_summary(&mut self, summary: &FragmentSummary, version: &Global)
        requires
            *old(self) matches VersionedOffset::Offset(offset) ==> offset + summary@.visible
                + summary@.deleted <= usize::MAX,
        ensures
            *final(self) == offset_past(*old(self), summary@, version@),
    {
        if let VersionedOffset::Offset(offset) = *self {
            if version.at_least(&summary.max_insertion_version) {
                *self =
                VersionedOffset::Offset(offset + summary.text.visible + summary.text.deleted);
            } else if version.observed_any(&summary.min_insertion_version) {
                *self = VersionedOffset::InvalidVersion;
            }
        }
    }

    /// Whether this offset lies at or before `other`; one that cannot be
    /// counted lies after every offset.
    pub fn is_at_most(&self, other: &VersionedOffset) -> (b: bool)
        requires
            *self is Offset,
        ensures
            b == match *other {
                VersionedOffset::Offset(end) => self->Offset_0 <= end,
                VersionedOffset::InvalidVersion => true,
            },
    {
        match (self, other) {
            (VersionedOffset::Offset(a), VersionedOffset::Offset(b)) => *a <= *b,
            _ => true,
        }
    }
}

/// The bytes of a run of fragments whose insertion `v` had seen.
pub open spec fn seen_bytes(run: Seq<Piece>, v: Version) -> nat
    decreases run.len(),
{
    if run.len() == 0 {
        0
    } else {
        seen_bytes(run.drop_last(), v) + if observes(v, local_of(run.last().timestamp)) {
            run.last().len
        } else {
            0
        }
    }
}

/// Every insertion of the run has been seen by its `max_insertion_version`,
/// and its earliest ones are in its `min_insertion_version`.
proof fn lemma_run_insertions(run: Seq<Piece>, i: int)
    requires
        0 <= i < run.len(),
    ensures
        ({
            let t = local_of(run[i].timestamp);
            let s = run_summary(run);
            &&& observes(s.max_insertion_version, t)
            &&& s.min_insertion_version.contains_key(t.replica_id)
            &&& s.min_insertion_version[t.replica_id] <= t.value
        }),
    decreases run.len(),
{
    let rest = run.drop_last();
    if i < rest.len() {
        lemma_run_insertions(rest, i);
        assert(rest[i] == run[i]);
    }
    lemma_joined_seen(
        run_summary(rest).max_insertion_version,
        insertion_version(run.last().timestamp),
    );
}

proof fn lemma_joined_seen(a: Version, b: Version)
    ensures
        includes(joined(a, b), a),
        includes(joined(a, b), b),
{
    assert forall|r: ReplicaId| seen_of(joined(a, b), r) >= #[trigger] seen_of(a, r) by {}
    assert forall|r: ReplicaId| seen_of(joined(a, b), r) >= #[trigger] seen_of(b, r) by {}
}

proof fn lemma_seen_bytes_all(run: Seq<Piece>, v: Version)
    requires
        forall|i: int| 0 <= i < run.len() ==> observes(v, local_of((#[trigger] run[i]).timestamp)),
    ensures
        seen_bytes(run, v) == run_summary(run).visible + run_summary(run).deleted,
    decreases run.len(),
{
    if run.len() > 0 {
        assert forall|i: int| 0 <= i < run.drop_last().len() implies observes(
            v,
            local_of((#[trigger] run.drop_last()[i]).timestamp),
        ) by {
            assert(run.drop_last()[i] == run[i]);
        }
        lemma_seen_bytes_all(run.drop_last(), v);
    }
}

proof fn lemma_seen_bytes_none(run: Seq<Piece>, v: Version)
    requires
        forall|i: int| 0 <= i < run.len() ==> !observes(v, local_of((#[trigger] run[i]).timestamp)),
    ensures
        seen_bytes(run, v) == 0,
    decreases run.len(),
{
    if run.len() > 0 {
        assert forall|i: int| 0 <= i < run.drop_last().len() implies !observes(
            v,
            local_of((#[trigger] run.drop_last()[i]).timestamp),
        ) by {
            assert(run.drop_last()[i] == run[i]);
        }
        lemma_seen_bytes_none(run.drop_last(), v);
    }
}

/// Moving over a run of fragments at once, by its summary, gives the same
/// offset as moving over its fragments one by one, wherever the summary says
/// that the run can be counted as a whole.
pub proof fn law_offset_past_run(at: usize, run: Seq<Piece>, v: Version)
    requires
        at + run_summary(run).visible + run_summary(run).deleted <= usize::MAX,
        offset_past(VersionedOffset::Offset(at), run_summary(run), v) is Offset,
    ensures
        offset_past(VersionedOffset::Offset(at), run_summary(run), v) == VersionedOffset::Offset(
            (at + seen_bytes(run, v)) as usize,
        ),
{
    let s = run_summary(run);
    if includes(v, s.max_insertion_version) {
        assert forall|i: int| 0 <= i < run.len() implies observes(
            v,
            local_of((#[trigger] run[i]).timestamp),
        ) by {
            lemma_run_insertions(run, i);
            let r = run[i].timestamp.replica_id;
            assert(seen_of(v, r) >= seen_of(s.max_insertion_version, r));
        }
        lemma_seen_bytes_all(run, v);
    } else {
        assert forall|i: int| 0 <= i < run.len() implies !observes(
            v,
            local_of((#[trigger] run[i]).timestamp),
        ) by {
            lemma_run_insertions(run, i);
            let r = run[i].timestamp.replica_id;
            assert(s.min_insertion_version.contains_key(r));
        }
        lemma_seen_bytes_none(run, v);
    }
}

/// A single fragment can always be counted as a whole.
pub proof fn law_offset_past_one(at: usize, p: Piece, v: Version)
    requires
        at + p.len <= usize::MAX,
    ensures
        offset_past(VersionedOffset::Offset(at), piece_summary(p), v) == VersionedOffset::Offset(
            (at + if observes(v, local_of(p.timestamp)) {
                p.len
            } else {
                0
            }) as usize,
        ),
{
    let t = local_of(p.timestamp);
    let w = insertion_version(p.timestamp);
    if observes(v, t) {
        assert forall|r: ReplicaId| seen_of(v, r) >= #[trigger] seen_of(w, r) by {}
    } else {
        assert(seen_of(w, t.replica_id) == t.value);
        assert(!includes(v, w));
    }
}

} // verus!
