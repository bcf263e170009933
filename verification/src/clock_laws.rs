//! Versions, undo counts, and what they say of which text is shown.

use vstd::prelude::*;

use crate::clock::{
    Lamport, Local, ReplicaId, Version, exceeds, includes, observes, observes_any, observing,
    same_version, seen_of,
};
use crate::fragment::{
    InsertionTimestamp, Piece, insertion_version, lamport_of, lemma_having_seen, local_of,
    piece_summary, run_summary, shown, shown_at,
};
use crate::operation::{OperationModel, lamport_timestamp_of};
use crate::undo_map::{
    UndoLog, largest_count, largest_count_at, log_with, undone, undone_at, undos_of,
};

verus! {

/// A version that has seen an operation has seen it and all earlier ones of its
/// replica, and of other replicas no more than before.
pub proof fn law_observing(v: Version, t: Local, u: Local)
    ensures
        observes(observing(v, t), t),
        observes(v, u) ==> observes(observing(v, t), u),
        u.replica_id == t.replica_id && u.value <= t.value ==> observes(observing(v, t), u),
        u.value > 0 && observes(observing(v, t), u) && !observes(v, u) ==> u.replica_id
            == t.replica_id && u.value <= t.value,
        seen_of(observing(v, t), t.replica_id) >= t.value,
        seen_of(observing(v, t), t.replica_id) == t.value || seen_of(
            observing(v, t),
            t.replica_id,
        ) == seen_of(v, t.replica_id),
        u.replica_id != t.replica_id ==> seen_of(observing(v, t), u.replica_id) == seen_of(
            v,
            u.replica_id,
        ),
{
}

/// Whether a version has seen an operation goes by the largest one that it has seen of
/// the replica.
pub proof fn law_seen(v: Version, t: Local)
    ensures
        observes(v, t) <==> seen_of(v, t.replica_id) >= t.value,
        v.contains_key(t.replica_id) ==> seen_of(v, t.replica_id) == v[t.replica_id],
        !v.contains_key(t.replica_id) ==> seen_of(v, t.replica_id) == 0,
{
}

/// A version includes another one if it has seen every operation that the other one has
/// seen; it exceeds it if it has seen more besides; and they are the same if each
/// includes the other.
pub proof fn law_versions_are_ordered(a: Version, b: Version)
    ensures
        includes(a, b) <==> forall|t: Local| #[trigger] observes(b, t) ==> observes(a, t),
        exceeds(a, b) <==> includes(a, b) && exists|t: Local| #[trigger]
            observes(a, t) && !observes(b, t),
        same_version(a, b) <==> forall|t: Local| #[trigger] observes(a, t) <==> observes(b, t),
{
    lemma_includes(a, b);
    lemma_includes(b, a);
    if same_version(a, b) {
        assert forall|t: Local| #[trigger] observes(a, t) <==> observes(b, t) by {}
    }
    if forall|t: Local| #[trigger] observes(a, t) <==> observes(b, t) {
        assert forall|t: Local| #[trigger] observes(a, t) implies observes(b, t) by {}
        assert forall|t: Local| #[trigger] observes(b, t) implies observes(a, t) by {
            assert(observes(a, t) <==> observes(b, t));
        }
    }
}

proof fn lemma_includes(a: Version, b: Version)
    ensures
        includes(a, b) <==> forall|t: Local| #[trigger] observes(b, t) ==> observes(a, t),
{
    if includes(a, b) {
        assert forall|t: Local| #[trigger] observes(b, t) implies observes(a, t) by {
            assert(seen_of(a, t.replica_id) >= seen_of(b, t.replica_id));
        }
    }
    if forall|t: Local| #[trigger] observes(b, t) ==> observes(a, t) {
        assert forall|r: ReplicaId| seen_of(a, r) >= #[trigger] seen_of(b, r) by {
            let t = Local { replica_id: r, value: seen_of(b, r) };
            assert(observes(b, t));
        }
    }
}

/// A version has seen one of the operations that another one names exactly if it has
/// seen, of some replica that the other one knows of, as much as that one.
pub proof fn law_seen_any(v: Version, w: Version)
    ensures
        observes_any(v, w) <==> exists|r: ReplicaId| #[trigger]
            w.contains_key(r) && seen_of(v, r) >= w[r],
{
    if exists|r: ReplicaId| #[trigger] w.contains_key(r) && seen_of(v, r) >= w[r] {
        let r = choose|r: ReplicaId| #[trigger] w.contains_key(r) && seen_of(v, r) >= w[r];
        assert(observes(v, Local { replica_id: r, value: w[r] }));
    }
}

/// The largest count is that of an entry, and none is larger; it is zero if there is
/// none.
pub proof fn law_largest_count(s: Seq<(Local, u32)>)
    ensures
        forall|i: int| 0 <= i < s.len() ==> (#[trigger] s[i]).1 <= largest_count(s),
        largest_count(s) == 0 || exists|i: int|
            0 <= i < s.len() && (#[trigger] s[i]).1 == largest_count(s),
    decreases s.len(),
{
    if s.len() > 0 {
        let rest = s.drop_last();
        law_largest_count(rest);
        assert forall|i: int| 0 <= i < s.len() implies (#[trigger] s[i]).1 <= largest_count(s) by {
            if i < rest.len() {
                assert(rest[i].1 <= largest_count(rest));
            }
        }
        if largest_count(s) != 0 {
            if s.last().1 > largest_count(rest) {
                assert(s[s.len() - 1].1 == largest_count(s));
            } else {
                let i = choose|i: int|
                    0 <= i < rest.len() && (#[trigger] rest[i]).1 == largest_count(rest);
                assert(s[i].1 == largest_count(s));
            }
        }
    }
}

/// The same of the operations that a version has seen.
pub proof fn law_largest_count_at(s: Seq<(Local, u32)>, v: Version)
    ensures
        forall|i: int|
            0 <= i < s.len() && observes(v, (#[trigger] s[i]).0) ==> s[i].1 <= largest_count_at(
                s,
                v,
            ),
        largest_count_at(s, v) == 0 || exists|i: int|
            0 <= i < s.len() && observes(v, (#[trigger] s[i]).0) && s[i].1 == largest_count_at(
                s,
                v,
            ),
    decreases s.len(),
{
    if s.len() > 0 {
        let rest = s.drop_last();
        law_largest_count_at(rest, v);
        assert forall|i: int|
            0 <= i < s.len() && observes(v, (#[trigger] s[i]).0) implies s[i].1
            <= largest_count_at(s, v) by {
            if i < rest.len() {
                assert(observes(v, rest[i].0));
            }
        }
        if largest_count_at(s, v) != 0 {
            if observes(v, s.last().0) && s.last().1 > largest_count_at(rest, v) {
                assert(s[s.len() - 1].1 == largest_count_at(s, v));
            } else {
                let i = choose|i: int|
                    0 <= i < rest.len() && observes(v, (#[trigger] rest[i]).0) && rest[i].1
                        == largest_count_at(rest, v);
                assert(s[i].1 == largest_count_at(s, v));
            }
        }
    }
}

/// An edit is undone after an odd number of undos and redos, and not after an even one.
pub proof fn law_undone(log: UndoLog, id: Local, v: Version)
    ensures
        undone(log, id) <==> largest_count(undos_of(log, id)) % 2 == 1,
        undone_at(log, id, v) <==> largest_count_at(undos_of(log, id), v) % 2 == 1,
        !log.contains_key(id) ==> !undone(log, id) && !undone_at(log, id, v),
        log.contains_key(id) ==> undos_of(log, id) == log[id],
{
}

/// An undo adds its count to each edit that it counts, and to no other.
pub proof fn law_undo_is_recorded(
    log: UndoLog,
    undo_id: Local,
    counts: Map<Local, u32>,
    id: Local,
)
    ensures
        counts.contains_key(id) ==> {
            let now = undos_of(log_with(log, undo_id, counts), id);
            let n = undos_of(log, id).len() as int;
            &&& now.len() == n + 1
            &&& now.take(n) == undos_of(log, id)
            &&& now[n] == (undo_id, counts[id])
        },
        !counts.contains_key(id) ==> undos_of(log_with(log, undo_id, counts), id) == undos_of(
            log,
            id,
        ),
{
    if counts.contains_key(id) {
        let n = undos_of(log, id).len() as int;
        assert(undos_of(log_with(log, undo_id, counts), id).take(n) =~= undos_of(log, id));
    }
}

/// Text is shown if what inserted it is not undone and everything that deleted it is;
/// and it was shown at a version if that had seen the insertion, which was not undone
/// then, and each deletion was not seen, or undone, then.
pub proof fn law_shown(
    timestamp: InsertionTimestamp,
    deletions: Set<Local>,
    log: UndoLog,
    v: Version,
)
    ensures
        ({
            let id = Local { replica_id: timestamp.replica_id, value: timestamp.local };
            &&& shown(timestamp, deletions, log) <==> !undone(log, id) && (forall|d: Local| #[trigger]
                deletions.contains(d) ==> undone(log, d))
            &&& shown_at(timestamp, deletions, v, log) <==> observes(v, id) && !undone_at(
                log,
                id,
                v,
            ) && (forall|d: Local| #[trigger]
                deletions.contains(d) ==> !observes(v, d) || undone_at(log, d, v))
        }),
{
}

/// A timestamp names an operation by its replica and its number, and its time by its
/// replica and its Lamport value; an operation's time is that.
pub proof fn law_timestamps(t: InsertionTimestamp, op: OperationModel)
    ensures
        local_of(t) == (Local { replica_id: t.replica_id, value: t.local }),
        lamport_of(t) == (Lamport { replica_id: t.replica_id, value: t.lamport }),
        match op {
            OperationModel::Edit(edit) => lamport_timestamp_of(op) == lamport_of(edit.timestamp),
            OperationModel::Undo { undo, lamport } => lamport_timestamp_of(op) == lamport,
            OperationModel::UpdateSelections { set_id, selections, lamport } =>
                lamport_timestamp_of(op) == lamport,
            OperationModel::SetActiveSelections { set_id, lamport } => lamport_timestamp_of(op)
                == lamport,
        },
{
}

/// How much text of some fragments is shown.
pub open spec fn shown_len(run: Seq<Piece>) -> nat
    decreases run.len(),
{
    if run.len() == 0 {
        0
    } else {
        shown_len(run.drop_last()) + if run.last().visible {
            run.last().len
        } else {
            0
        }
    }
}

/// How much text of some fragments is not shown.
pub open spec fn hidden_len(run: Seq<Piece>) -> nat
    decreases run.len(),
{
    if run.len() == 0 {
        0
    } else {
        hidden_len(run.drop_last()) + if run.last().visible {
            0
        } else {
            run.last().len
        }
    }
}

/// The summary of some fragments counts the text that is shown and the text that is
/// not.
pub proof fn law_summary_of_fragments(run: Seq<Piece>)
    ensures
        run_summary(run).visible == shown_len(run),
        run_summary(run).deleted == hidden_len(run),
    decreases run.len(),
{
    if run.len() > 0 {
        law_summary_of_fragments(run.drop_last());
    }
}

/// The summary of a fragment has seen its insertion, its deletions and its undos.
pub proof fn law_summary_has_seen(p: Piece, d: Local)
    ensures
        observes(piece_summary(p).max_version, local_of(p.timestamp)),
        p.deletions.contains(d) ==> observes(piece_summary(p).max_version, d),
        observes(p.max_undos, d) ==> observes(piece_summary(p).max_version, d),
        observes(piece_summary(p).max_insertion_version, local_of(p.timestamp)),
        observes(piece_summary(p).min_insertion_version, local_of(p.timestamp)),
{
    let v = insertion_version(p.timestamp);
    lemma_having_seen(v, p.deletions, local_of(p.timestamp));
    if p.deletions.contains(d) {
        lemma_having_seen(v, p.deletions, d);
    }
}

} // verus!
