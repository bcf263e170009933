//! Undos that reach what their edits did where they are made do so wherever they
//! arrive.

use vstd::prelude::*;

use crate::clock::{Local, ReplicaId, Version, includes, observes, seen_of};
use crate::converge::{edit_done, unaware};
use crate::document::Cell;
use crate::fragment::{having_seen, lamport_of, lemma_having_seen, local_of};
use crate::history::TransactionModel;
use crate::operation::{EditModel, OperationModel};
use crate::reach_laws::{
    law_replicas_show_same_text, lemma_bare_reach, lemma_edit_keeps_reach, reaches, undos_reach,
};
use crate::replica_laws::{
    edits_in, lemma_bare_edits, lemma_edits_in, lemma_same_named, lemma_took, logs_agree_at,
    name_of, named, takes, took, undid, undoes,
};
use crate::replicas::{
    at_different_times, edits_done, edits_placed, in_causal_order, law_edits_converge,
};
use crate::state::{State, applied, send_effects, undo_effects, undo_of, undone_or_redone};
use crate::undo::Undo;
use crate::undo_laws::settled;
use crate::undo_map::{UndoLog, undos_of};

verus! {

/// The edits that a version has not seen.
pub open spec fn unseen_edits(edits: Seq<EditModel>, v: Version) -> Seq<EditModel>
    decreases edits.len(),
{
    if edits.len() == 0 {
        Seq::empty()
    } else if observes(v, local_of(edits[0].timestamp)) {
        unseen_edits(edits.skip(1), v)
    } else {
        seq![edits[0]] + unseen_edits(edits.skip(1), v)
    }
}

proof fn lemma_unseen_edits(edits: Seq<EditModel>, v: Version)
    ensures
        forall|e: EditModel| #[trigger]
            unseen_edits(edits, v).contains(e) <==> edits.contains(e) && !observes(
                v,
                local_of(e.timestamp),
            ),
        in_causal_order(edits) ==> in_causal_order(unseen_edits(edits, v)),
        at_different_times(edits) ==> at_different_times(unseen_edits(edits, v)),
    decreases edits.len(),
{
    let all = unseen_edits(edits, v);
    if edits.len() > 0 {
        let first = edits[0];
        let rest = edits.skip(1);
        let others = unseen_edits(rest, v);
        lemma_unseen_edits(rest, v);
        assert forall|e: EditModel| #[trigger] edits.contains(e) <==> e == first || rest.contains(
            e,
        ) by {
            if edits.contains(e) {
                let i = edits.index_of(e);
                if i > 0 {
                    assert(rest[i - 1] == e);
                }
            }
            if rest.contains(e) {
                let i = rest.index_of(e);
                assert(edits[i + 1] == e);
            }
            assert(edits[0] == first);
        }
        let new = !observes(v, local_of(first.timestamp));
        assert forall|e: EditModel| #[trigger] all.contains(e) <==> (new && e == first)
            || others.contains(e) by {
            if new {
                assert(all[0] == first);
                if all.contains(e) {
                    let i = all.index_of(e);
                    if i > 0 {
                        assert(others[i - 1] == e);
                    }
                }
                if others.contains(e) {
                    let i = others.index_of(e);
                    assert(all[i + 1] == e);
                }
            }
        }
        assert forall|e: EditModel| #[trigger] all.contains(e) <==> edits.contains(e) && !observes(
            v,
            local_of(e.timestamp),
        ) by {
            assert(edits.contains(e) <==> e == first || rest.contains(e));
        }
        if in_causal_order(edits) {
            assert(in_causal_order(rest)) by {
                assert forall|i: int, j: int| 0 <= i < j < rest.len() implies unaware(
                    #[trigger] rest[i],
                    #[trigger] rest[j],
                ) by {
                    assert(unaware(edits[i + 1], edits[j + 1]));
                }
            }
            assert forall|i: int, j: int| 0 <= i < j < all.len() implies unaware(
                #[trigger] all[i],
                #[trigger] all[j],
            ) by {
                if new {
                    assert(all[j] == others[j - 1]);
                    if i > 0 {
                        assert(all[i] == others[i - 1]);
                    } else {
                        assert(others.contains(others[j - 1]));
                        let k = rest.index_of(others[j - 1]);
                        assert(unaware(edits[0], edits[k + 1]));
                    }
                }
            }
        }
        if at_different_times(edits) {
            assert(at_different_times(rest)) by {
                assert forall|i: int, j: int| 0 <= i < j < rest.len() implies lamport_of(
                    (#[trigger] rest[i]).timestamp,
                ) != lamport_of((#[trigger] rest[j]).timestamp) by {
                    assert(rest[i] == edits[i + 1]);
                    assert(rest[j] == edits[j + 1]);
                }
            }
            assert forall|i: int, j: int| 0 <= i < j < all.len() implies lamport_of(
                (#[trigger] all[i]).timestamp,
            ) != lamport_of((#[trigger] all[j]).timestamp) by {
                if new {
                    assert(all[j] == others[j - 1]);
                    if i > 0 {
                        assert(all[i] == others[i - 1]);
                    } else {
                        assert(others.contains(others[j - 1]));
                        let k = rest.index_of(others[j - 1]);
                        assert(edits[k + 1] == others[j - 1]);
                        assert(lamport_of(edits[0].timestamp) != lamport_of(
                            edits[k + 1].timestamp,
                        ));
                    }
                }
            }
        }
    }
}

/// Edits made after others.
proof fn lemma_edits_on(
    cells: Seq<Cell>,
    log: UndoLog,
    first: Seq<EditModel>,
    second: Seq<EditModel>,
)
    ensures
        edits_done(cells, log, first + second) == edits_done(
            edits_done(cells, log, first),
            log,
            second,
        ),
        edits_placed(cells, log, first + second) <==> edits_placed(cells, log, first)
            && edits_placed(edits_done(cells, log, first), log, second),
    decreases first.len(),
{
    if first.len() == 0 {
        assert(first + second =~= second);
    } else {
        assert((first + second)[0] == first[0]);
        assert((first + second).skip(1) =~= first.skip(1) + second);
        lemma_edits_on(edit_done(cells, log, first[0]), log, first.skip(1), second);
    }
}

/// Edits that the undo has not seen are out of its way.
proof fn lemma_edits_keep_reach(
    cells: Seq<Cell>,
    log: UndoLog,
    version: Version,
    edits: Seq<EditModel>,
    undo: Undo,
)
    requires
        reaches(cells, log, version, undo),
        edits_placed(cells, log, edits),
        forall|i: int|
            0 <= i < edits.len() ==> !observes(
                having_seen(undo.version, undo.counts.dom()),
                local_of((#[trigger] edits[i]).timestamp),
            ),
    ensures
        reaches(edits_done(cells, log, edits), log, version, undo),
    decreases edits.len(),
{
    if edits.len() > 0 {
        let rest = edits.skip(1);
        lemma_edit_keeps_reach(cells, log, version, edits[0], undo);
        assert forall|i: int| 0 <= i < rest.len() implies !observes(
            having_seen(undo.version, undo.counts.dom()),
            local_of((#[trigger] rest[i]).timestamp),
        ) by {
            assert(rest[i] == edits[i + 1]);
        }
        lemma_edits_keep_reach(edit_done(cells, log, edits[0]), log, version, rest, undo);
    }
}

/// A buffer has seen what the edits that it has received had seen.
proof fn lemma_versions_known(s: State, ops: Seq<OperationModel>)
    requires
        takes(s, ops),
    ensures
        forall|i: int|
            0 <= i < edits_in(ops).len() ==> includes(
                took(s, ops).version,
                (#[trigger] edits_in(ops)[i]).version,
            ),
    decreases ops.len(),
{
    if ops.len() > 0 {
        let rest = ops.skip(1);
        let next = applied(s, ops[0]);
        let all = edits_in(ops);
        let others = edits_in(rest);
        lemma_versions_known(next, rest);
        lemma_took(s, ops);
        assert forall|i: int| 0 <= i < all.len() implies includes(
            took(s, ops).version,
            (#[trigger] all[i]).version,
        ) by {
            if ops[0] is Edit {
                if i > 0 {
                    assert(all[i] == others[i - 1]);
                } else {
                    assert(all[0] == ops[0]->Edit_0);
                    assert forall|r: ReplicaId| seen_of(
                        took(s, ops).version,
                        r,
                    ) >= #[trigger] seen_of(all[0].version, r) by {
                        assert(seen_of(took(s, ops).version, r) >= seen_of(s.version, r));
                    }
                }
            } else {
                assert(all[i] == others[i]);
            }
        }
    }
}

/// An undo was made by a replica that had received `origin`: the undo knows of
/// all that, and of no other of the operations `ops`, and it reaches what its
/// edits did.
pub open spec fn made_with(
    s: State,
    origin: Seq<OperationModel>,
    ops: Seq<OperationModel>,
    undo: Undo,
) -> bool {
    let known = having_seen(undo.version, undo.counts.dom());
    let made = took(s, origin);
    &&& takes(s, origin)
    &&& at_different_times(edits_in(origin))
    &&& includes(known, made.version)
    &&& forall|op: OperationModel| #[trigger]
        origin.contains(op) <==> ops.contains(op) && observes(known, name_of(op))
    &&& reaches(made.cells, made.log, made.version, undo)
}

/// The undos that a version has seen are on record wherever the operations that
/// it knows of have been received.
proof fn lemma_logs_known(
    s: State,
    origin: Seq<OperationModel>,
    ops: Seq<OperationModel>,
    undo: Undo,
    v: Version,
)
    requires
        takes(s, ops),
        made_with(s, origin, ops, undo),
        includes(having_seen(undo.version, undo.counts.dom()), v),
    ensures
        logs_agree_at(took(s, origin).log, took(s, ops).log, v),
{
    let known = having_seen(undo.version, undo.counts.dom());
    let made = took(s, origin);
    let now = took(s, ops);
    lemma_took(s, origin);
    lemma_took(s, ops);
    assert forall|id: Local, entry: (Local, u32)| observes(v, entry.0) implies (
    #[trigger] undos_of(made.log, id).contains(entry) <==> undos_of(now.log, id).contains(
        entry,
    )) by {
        let r = entry.0.replica_id;
        assert(seen_of(known, r) >= seen_of(v, r));
        if undid(origin, id, entry) {
            let i = choose|i: int| 0 <= i < origin.len() && #[trigger] undoes(
                origin[i],
                id,
                entry,
            );
            assert(origin.contains(origin[i]));
            let k = ops.index_of(origin[i]);
            assert(undoes(ops[k], id, entry));
        }
        if undid(ops, id, entry) {
            let i = choose|i: int| 0 <= i < ops.len() && #[trigger] undoes(ops[i], id, entry);
            assert(ops.contains(ops[i]));
            assert(name_of(ops[i]) == entry.0);
            assert(origin.contains(ops[i]));
            let k = origin.index_of(ops[i]);
            assert(undoes(origin[k], id, entry));
        }
        assert(undos_of(made.log, id).contains(entry) <==> undos_of(s.log, id).contains(entry)
            || undid(origin, id, entry));
        assert(undos_of(now.log, id).contains(entry) <==> undos_of(s.log, id).contains(entry)
            || undid(ops, id, entry));
    }
}

/// The edits that an undo knows of, followed by the others: an order in which
/// they could have been received.
proof fn lemma_known_first(
    s: State,
    origin: Seq<OperationModel>,
    ops: Seq<OperationModel>,
    undo: Undo,
)
    requires
        takes(s, ops),
        at_different_times(edits_in(ops)),
        made_with(s, origin, ops, undo),
    ensures
        ({
            let known = having_seen(undo.version, undo.counts.dom());
            let all = edits_in(origin) + unseen_edits(edits_in(ops), known);
            &&& edits_placed(s.cells, took(s, ops).log, all)
            &&& edits_done(s.cells, took(s, ops).log, edits_in(ops)) == edits_done(
                s.cells,
                took(s, ops).log,
                all,
            )
        }),
{
    let v = having_seen(undo.version, undo.counts.dom());
    let given = edits_in(ops);
    let known = edits_in(origin);
    let others = unseen_edits(given, v);
    let all = known + others;
    lemma_took(s, ops);
    lemma_took(s, origin);
    lemma_unseen_edits(given, v);
    lemma_versions_known(s, origin);
    assert forall|i: int| 0 <= i < known.len() implies given.contains(#[trigger] known[i])
        && observes(v, local_of(known[i].timestamp)) by {
        let e = known[i];
        assert(known.contains(e));
        lemma_edits_in(origin, e);
        lemma_edits_in(ops, e);
        assert(origin.contains(OperationModel::Edit(e)));
    }
    assert forall|i: int| 0 <= i < others.len() implies given.contains(#[trigger] others[i])
        && !observes(v, local_of(others[i].timestamp)) by {
        assert(others.contains(others[i]));
    }
    assert forall|e: EditModel| #[trigger] given.contains(e) <==> all.contains(e) by {
        lemma_edits_in(origin, e);
        lemma_edits_in(ops, e);
        if given.contains(e) {
            if observes(v, local_of(e.timestamp)) {
                assert(origin.contains(OperationModel::Edit(e)));
                let i = known.index_of(e);
                assert(all[i] == e);
            } else {
                assert(others.contains(e));
                let i = others.index_of(e);
                assert(all[known.len() + i] == e);
            }
        }
        if all.contains(e) {
            let i = all.index_of(e);
            if i < known.len() {
                assert(known[i] == e);
            } else {
                assert(others[i - known.len()] == e);
            }
        }
    }
    assert forall|i: int, j: int| 0 <= i < j < all.len() implies unaware(
        #[trigger] all[i],
        #[trigger] all[j],
    ) && lamport_of(all[i].timestamp) != lamport_of(all[j].timestamp) by {
        let n = known.len() as int;
        if j < n {
            assert(all[i] == known[i] && all[j] == known[j]);
        } else if i >= n {
            assert(all[i] == others[i - n] && all[j] == others[j - n]);
        } else {
            let a = known[i];
            let b = others[j - n];
            assert(all[i] == a && all[j] == b);
            let r = local_of(b.timestamp).replica_id;
            assert(includes(took(s, origin).version, a.version));
            assert(seen_of(took(s, origin).version, r) >= seen_of(a.version, r));
            assert(seen_of(v, r) >= seen_of(took(s, origin).version, r));
            assert(given.contains(known[i]) && given.contains(others[j - n]));
            let x = given.index_of(a);
            let y = given.index_of(b);
            assert(given[x] == a && given[y] == b);
            if x < y {
                assert(lamport_of(given[x].timestamp) != lamport_of(given[y].timestamp));
            } else if y < x {
                assert(lamport_of(given[y].timestamp) != lamport_of(given[x].timestamp));
            }
        }
    }
    law_edits_converge(s.cells, took(s, ops).log, given, all);
}

/// An undo that reaches what its edits did where it was made does so on every
/// replica that has received what it knows of, whatever else that replica has
/// received, and in whatever order.
pub proof fn law_reach_travels(
    s: State,
    origin: Seq<OperationModel>,
    ops: Seq<OperationModel>,
    undo: Undo,
)
    requires
        takes(s, ops),
        at_different_times(edits_in(ops)),
        made_with(s, origin, ops, undo),
    ensures
        reaches(took(s, ops).cells, took(s, ops).log, took(s, ops).version, undo),
{
    let v = having_seen(undo.version, undo.counts.dom());
    let made = took(s, origin);
    let now = took(s, ops);
    let known = edits_in(origin);
    let others = unseen_edits(edits_in(ops), v);
    lemma_took(s, origin);
    lemma_took(s, ops);
    lemma_known_first(s, origin, ops, undo);
    lemma_edits_on(s.cells, now.log, known, others);
    lemma_versions_known(s, origin);
    lemma_unseen_edits(edits_in(ops), v);
    assert forall|id: Local| #[trigger] undo.counts.contains_key(id) implies observes(
        now.version,
        id,
    ) by {
        assert(observes(made.version, id));
        assert(observes(s.version, id) || named(origin, id));
        assert forall|op: OperationModel| #[trigger] origin.contains(op) implies ops.contains(
            op,
        ) by {}
        lemma_same_named(origin, ops, id);
        assert(named(origin, id) ==> named(ops, id));
    }
    // The document with the edits that the undo knows of.
    let base = edits_done(s.cells, now.log, known);
    assert forall|i: int| 0 <= i < known.len() implies logs_agree_at(
        made.log,
        now.log,
        (#[trigger] known[i]).version,
    ) by {
        let w = known[i].version;
        assert forall|r: ReplicaId| seen_of(v, r) >= #[trigger] seen_of(w, r) by {
            assert(includes(made.version, known[i].version));
            assert(seen_of(made.version, r) >= seen_of(w, r));
            assert(seen_of(v, r) >= seen_of(made.version, r));
        }
        lemma_logs_known(s, origin, ops, undo, w);
    }
    lemma_bare_edits(s.cells, s.cells, made.log, now.log, known);
    assert forall|r: ReplicaId| seen_of(v, r) >= #[trigger] seen_of(undo.version, r) by {
        let t = Local { replica_id: r, value: seen_of(undo.version, r) };
        assert(observes(undo.version, t));
        lemma_having_seen(undo.version, undo.counts.dom(), t);
    }
    lemma_logs_known(s, origin, ops, undo, undo.version);
    lemma_bare_reach(made.cells, base, made.log, now.log, made.version, now.version, undo);
    // And the others.
    assert forall|i: int| 0 <= i < others.len() implies !observes(
        v,
        local_of((#[trigger] others[i]).timestamp),
    ) by {
        assert(others.contains(others[i]));
    }
    lemma_edits_keep_reach(base, now.log, now.version, others, undo);
    assert(logs_agree_at(now.log, now.log, undo.version));
    lemma_bare_reach(
        edits_done(base, now.log, others),
        now.cells,
        now.log,
        now.log,
        now.version,
        now.version,
        undo,
    );
}

/// What a replica does when it undoes a transaction is, to every replica in the
/// same state, the undo that it tells the others of.
pub proof fn law_undos_travel(s: State, t: TransactionModel)
    requires
        !observes(s.version, s.local_clock),
    ensures
        ({
            let op = OperationModel::Undo { undo: undo_of(s, t), lamport: s.lamport_clock };
            let told = applied(s, op);
            let done = undone_or_redone(s, t);
            &&& undo_effects(s, t) == send_effects(s, op)
            &&& told.cells == done.cells
            &&& told.log == done.log
            &&& told.version == done.version
        }),
{
}

/// The undo was made by a replica that had received some of the operations `ops`.
pub open spec fn well_made(s: State, ops: Seq<OperationModel>, undo: Undo) -> bool {
    exists|origin: Seq<OperationModel>| #[trigger] made_with(s, origin, ops, undo)
}

/// Each of the undos was made by a replica that had received some of the
/// operations before it.
pub open spec fn undos_well_made(s: State, ops: Seq<OperationModel>) -> bool {
    forall|i: int|
        0 <= i < ops.len() && (#[trigger] ops[i]) is Undo ==> well_made(
            s,
            ops.take(i),
            ops[i]->undo,
        )
}

/// The first operations, and the next one.
pub proof fn lemma_took_next(s: State, ops: Seq<OperationModel>, n: int)
    requires
        takes(s, ops),
        0 <= n < ops.len(),
    ensures
        takes(s, ops.take(n)),
        takes(took(s, ops.take(n)), ops.skip(n)),
        took(s, ops.take(n + 1)) == applied(took(s, ops.take(n)), ops[n]),
    decreases n,
{
    let head = ops.take(n);
    let next = ops.take(n + 1);
    if n == 0 {
        assert(ops.skip(0) =~= ops);
        assert(next.skip(1) =~= Seq::<OperationModel>::empty());
        assert(next[0] == ops[0]);
        assert(took(s, next) == took(applied(s, next[0]), next.skip(1)));
    } else {
        let rest = ops.skip(1);
        lemma_took_next(applied(s, ops[0]), rest, n - 1);
        assert(head[0] == ops[0] && next[0] == ops[0]);
        assert(head.skip(1) =~= rest.take(n - 1));
        assert(next.skip(1) =~= rest.take(n));
        assert(ops.skip(n) =~= rest.skip(n - 1));
        assert(rest[n - 1] == ops[n]);
    }
}

proof fn lemma_edits_in_take(ops: Seq<OperationModel>, n: int)
    requires
        0 <= n <= ops.len(),
        at_different_times(edits_in(ops)),
    ensures
        at_different_times(edits_in(ops.take(n))),
{
    lemma_edits_in_prefix(ops, n);
    let all = edits_in(ops);
    let some = edits_in(ops.take(n));
    assert forall|i: int, j: int| 0 <= i < j < some.len() implies lamport_of(
        (#[trigger] some[i]).timestamp,
    ) != lamport_of((#[trigger] some[j]).timestamp) by {
        assert(some[i] == all[i]);
        assert(some[j] == all[j]);
    }
}

proof fn lemma_edits_in_prefix(ops: Seq<OperationModel>, n: int)
    requires
        0 <= n <= ops.len(),
    ensures
        edits_in(ops.take(n)).is_prefix_of(edits_in(ops)),
    decreases n,
{
    if n > 0 {
        lemma_edits_in_prefix(ops.skip(1), n - 1);
        assert(ops.take(n).skip(1) =~= ops.skip(1).take(n - 1));
        assert(ops.take(n)[0] == ops[0]);
        let a = edits_in(ops.take(n));
        let b = edits_in(ops);
        let x = edits_in(ops.skip(1).take(n - 1));
        let y = edits_in(ops.skip(1));
        assert forall|i: int| 0 <= i < a.len() implies a[i] == b[i] by {
            if ops[0] is Edit {
                if i > 0 {
                    assert(a[i] == x[i - 1]);
                    assert(b[i] == y[i - 1]);
                }
            }
        }
        assert(a =~= b.subrange(0, a.len() as int));
    } else {
        assert(edits_in(ops.take(0)) =~= edits_in(ops).subrange(0, 0));
    }
}

/// Undos that were well made reach what their edits did, from the operation `n`
/// on.
proof fn lemma_undos_reach(s: State, ops: Seq<OperationModel>, n: int)
    requires
        takes(s, ops),
        at_different_times(edits_in(ops)),
        undos_well_made(s, ops),
        0 <= n <= ops.len(),
    ensures
        undos_reach(took(s, ops.take(n)), ops.skip(n)),
    decreases ops.len() - n,
{
    if n < ops.len() {
        let now = took(s, ops.take(n));
        lemma_took_next(s, ops, n);
        lemma_undos_reach(s, ops, n + 1);
        assert(ops.skip(n)[0] == ops[n]);
        assert(ops.skip(n).skip(1) =~= ops.skip(n + 1));
        if ops[n] is Undo {
            let undo = ops[n]->undo;
            assert(well_made(s, ops.take(n), undo));
            let origin = choose|origin: Seq<OperationModel>| #[trigger]
                made_with(s, origin, ops.take(n), undo);
            lemma_edits_in_take(ops, n);
            law_reach_travels(s, origin, ops.take(n), undo);
        }
    }
}

/// Two replicas that started from the same settled state, and have received the
/// same edits and undos in whatever orders they could be applied in, show the
/// same text. The undos are any that replicas with that start have made, as long
/// as what their edits deleted was shown before those edits.
pub proof fn law_replicas_agree(s: State, first: Seq<OperationModel>, second: Seq<OperationModel>)
    requires
        settled(s.cells, s.log, s.version),
        takes(s, first),
        takes(s, second),
        at_different_times(edits_in(first)),
        at_different_times(edits_in(second)),
        forall|op: OperationModel| #[trigger] first.contains(op) <==> second.contains(op),
        undos_well_made(s, first),
        undos_well_made(s, second),
    ensures
        took(s, first).text() == took(s, second).text(),
{
    lemma_undos_reach(s, first, 0);
    lemma_undos_reach(s, second, 0);
    assert(first.skip(0) =~= first && second.skip(0) =~= second);
    law_replicas_show_same_text(s, first, second);
}

} // verus!
