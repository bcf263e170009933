//! What the fields of messages hold.

use vstd::prelude::*;

use crate::clock::{Lamport, Local, Version, version_of};
use crate::error::Error;
use crate::operation::{AnchorModel, EditModel, OperationModel, SelectionModel, SelectionSetModel};
use crate::proto::{
    Anchor, Edit, Operation, Selection, SelectionSetSnapshot, Undo, UndoCount, Variant,
    VectorClockEntry, anchor_meant, anchor_says, counts_meant, edit_meant, edit_says, entries_say,
    entries_version, entry_locals, operation_meant, operation_says, selection_meant, selection_says,
    selections_meant, sets_meant, undo_meant, undo_says,
};
use crate::rope::Bias;
use crate::undo::Undo as UndoModel;

verus! {

/// What a version has of a replica is the largest of what a list of operations names
/// of it, and nothing if the list names none.
proof fn lemma_version(locals: Seq<Local>, i: int)
    requires
        0 <= i < locals.len(),
        forall|j: int|
            0 <= j < locals.len() && j != i ==> (#[trigger] locals[j]).replica_id
                != locals[i].replica_id,
    ensures
        version_of(locals).contains_key(locals[i].replica_id),
        version_of(locals)[locals[i].replica_id] == locals[i].value,
    decreases locals.len(),
{
    let rest = locals.drop_last();
    let n = locals.len() as int;
    if i < n - 1 {
        assert forall|j: int| 0 <= j < rest.len() && j != i implies (#[trigger] rest[j]).replica_id
            != rest[i].replica_id by {
            assert(rest[j] == locals[j]);
        }
        lemma_version(rest, i);
        assert(locals[n - 1].replica_id != locals[i].replica_id);
    } else {
        assert forall|j: int| 0 <= j < rest.len() implies (#[trigger] rest[j]).replica_id
            != locals[i].replica_id by {
            assert(rest[j] == locals[j]);
        }
        lemma_not_named(rest, locals[i].replica_id);
    }
}

proof fn lemma_not_named(locals: Seq<Local>, r: u16)
    requires
        forall|j: int| 0 <= j < locals.len() ==> (#[trigger] locals[j]).replica_id != r,
    ensures
        !version_of(locals).contains_key(r),
    decreases locals.len(),
{
    if locals.len() > 0 {
        let rest = locals.drop_last();
        assert forall|j: int| 0 <= j < rest.len() implies (#[trigger] rest[j]).replica_id != r by {
            assert(rest[j] == locals[j]);
        }
        lemma_not_named(rest, r);
        assert(locals[locals.len() - 1].replica_id != r);
    }
}

/// A version in a message holds, for each replica that the version knows of, its
/// number and the largest operation seen of it, and nothing else.
pub proof fn law_version_message(entries: Seq<VectorClockEntry>, version: Version)
    requires
        entries_say(entries, version),
    ensures
        forall|i: int|
            0 <= i < entries.len() ==> {
                let r = (#[trigger] entries[i]).replica_id as u16;
                version.contains_key(r) && version[r] == entries[i].timestamp
            },
        forall|r: u16| #[trigger]
            version.contains_key(r) ==> exists|i: int|
                0 <= i < entries.len() && (#[trigger] entries[i]).replica_id == r,
{
    let locals = entry_locals(entries);
    assert forall|i: int| 0 <= i < entries.len() implies ({
        let r = (#[trigger] entries[i]).replica_id as u16;
        version.contains_key(r) && version[r] == entries[i].timestamp
    }) by {
        assert forall|j: int| 0 <= j < locals.len() && j != i implies (
        #[trigger] locals[j]).replica_id != locals[i].replica_id by {
            assert(entries[j].replica_id <= u16::MAX && entries[i].replica_id <= u16::MAX);
            if i < j {
                assert(entries[i].replica_id != entries[j].replica_id);
            } else {
                assert(entries[j].replica_id != entries[i].replica_id);
            }
        }
        lemma_version(locals, i);
        assert(locals[i].value == entries[i].timestamp);
    }
    assert forall|r: u16| #[trigger] version.contains_key(r) implies exists|i: int|
        0 <= i < entries.len() && (#[trigger] entries[i]).replica_id == r by {
        if forall|i: int| 0 <= i < entries.len() ==> (#[trigger] entries[i]).replica_id != r {
            assert forall|j: int| 0 <= j < locals.len() implies (#[trigger] locals[j]).replica_id
                != r by {
                assert(entries[j].replica_id <= u16::MAX);
                assert(entries[j].replica_id != r);
            }
            lemma_not_named(locals, r);
        }
    }
}

/// An edit in a message: each field holds what it is named after.
pub proof fn law_edit_message(m: Edit, edit: EditModel)
    requires
        edit_says(m, edit),
    ensures
        m.replica_id == edit.timestamp.replica_id,
        m.local_timestamp == edit.timestamp.local,
        m.lamport_timestamp == edit.timestamp.lamport,
        m.ranges@.len() == edit.ranges.len(),
        forall|i: int|
            #![trigger m.ranges@[i]]
            0 <= i < edit.ranges.len() && 0 <= edit.ranges[i].0 <= u64::MAX && 0
                <= edit.ranges[i].1 <= u64::MAX ==> m.ranges@[i].start == edit.ranges[i].0
                && m.ranges@[i].end == edit.ranges[i].1,
        match m.new_text {
            Some(text) => edit.new_text == Some(text@),
            None => edit.new_text is None,
        },
        entries_say(m.version@, edit.version),
{
    assert forall|i: int|
        #![trigger m.ranges@[i]]
        0 <= i < edit.ranges.len() && 0 <= edit.ranges[i].0 <= u64::MAX && 0 <= edit.ranges[i].1
            <= u64::MAX implies m.ranges@[i].start == edit.ranges[i].0 && m.ranges@[i].end
        == edit.ranges[i].1 by {}
}

/// The edit that a message means, field by field.
pub proof fn law_edit_from_message(m: Edit)
    ensures
        ({
            let edit = edit_meant(m);
            &&& m.replica_id <= u16::MAX ==> edit.timestamp.replica_id == m.replica_id
            &&& edit.timestamp.local == m.local_timestamp
            &&& edit.timestamp.lamport == m.lamport_timestamp
            &&& edit.ranges.len() == m.ranges@.len()
            &&& forall|i: int|
                #![trigger edit.ranges[i]]
                0 <= i < m.ranges@.len() && m.ranges@[i].start <= usize::MAX && m.ranges@[i].end
                    <= usize::MAX ==> edit.ranges[i] == (
                    m.ranges@[i].start as int,
                    m.ranges@[i].end as int,
                )
            &&& match m.new_text {
                Some(text) => edit.new_text == Some(text@),
                None => edit.new_text is None,
            }
            &&& edit.version == entries_version(m.version@)
        }),
{
}

/// An undo in a message: each field holds what it is named after.
pub proof fn law_undo_message(m: Undo, undo: UndoModel, lamport: crate::clock::Lamport)
    requires
        undo_says(m, undo, lamport),
    ensures
        m.replica_id == undo.id.replica_id,
        m.local_timestamp == undo.id.value,
        m.lamport_timestamp == lamport.value,
        m.ranges@.len() == undo.ranges.len(),
        forall|i: int|
            #![trigger m.ranges@[i]]
            0 <= i < undo.ranges.len() && 0 <= undo.ranges[i].0 <= u64::MAX && 0
                <= undo.ranges[i].1 <= u64::MAX ==> m.ranges@[i].start == undo.ranges[i].0
                && m.ranges@[i].end == undo.ranges[i].1,
        entries_say(m.version@, undo.version),
        forall|i: int|
            0 <= i < m.counts@.len() ==> {
                let count = #[trigger] m.counts@[i];
                let id = Local {
                    replica_id: count.replica_id as u16,
                    value: count.local_timestamp,
                };
                undo.counts.contains_key(id) && undo.counts[id] == count.count
            },
        forall|id: Local| #[trigger]
            undo.counts.contains_key(id) ==> exists|i: int|
                0 <= i < m.counts@.len() && (#[trigger] m.counts@[i]).replica_id as u16
                    == id.replica_id && m.counts@[i].local_timestamp == id.value,
{
    assert forall|i: int|
        #![trigger m.ranges@[i]]
        0 <= i < undo.ranges.len() && 0 <= undo.ranges[i].0 <= u64::MAX && 0 <= undo.ranges[i].1
            <= u64::MAX implies m.ranges@[i].start == undo.ranges[i].0 && m.ranges@[i].end
        == undo.ranges[i].1 by {}
    assert forall|i: int| 0 <= i < m.counts@.len() implies ({
        let count = #[trigger] m.counts@[i];
        let id = Local { replica_id: count.replica_id as u16, value: count.local_timestamp };
        undo.counts.contains_key(id) && undo.counts[id] == count.count
    }) by {
        lemma_count(m.counts@, i);
    }
    assert forall|id: Local| #[trigger] undo.counts.contains_key(id) implies exists|i: int|
        0 <= i < m.counts@.len() && (#[trigger] m.counts@[i]).replica_id as u16 == id.replica_id
            && m.counts@[i].local_timestamp == id.value by {
        lemma_counted(m.counts@, id);
    }
}

proof fn lemma_count(counts: Seq<UndoCount>, i: int)
    requires
        0 <= i < counts.len(),
        forall|a: int, b: int|
            0 <= a < b < counts.len() ==> crate::proto::counted_edit(#[trigger] counts[a])
                != crate::proto::counted_edit(#[trigger] counts[b]),
    ensures
        ({
            let id = Local {
                replica_id: counts[i].replica_id as u16,
                value: counts[i].local_timestamp,
            };
            counts_meant(counts).contains_key(id) && counts_meant(counts)[id] == counts[i].count
        }),
    decreases counts.len(),
{
    let rest = counts.drop_last();
    let n = counts.len() as int;
    if i < n - 1 {
        assert forall|a: int, b: int| 0 <= a < b < rest.len() implies crate::proto::counted_edit(
            #[trigger] rest[a],
        ) != crate::proto::counted_edit(#[trigger] rest[b]) by {
            assert(rest[a] == counts[a] && rest[b] == counts[b]);
        }
        lemma_count(rest, i);
        assert(crate::proto::counted_edit(counts[i]) != crate::proto::counted_edit(counts[n - 1]));
    }
}

proof fn lemma_counted(counts: Seq<UndoCount>, id: Local)
    requires
        counts_meant(counts).contains_key(id),
    ensures
        exists|i: int|
            0 <= i < counts.len() && (#[trigger] counts[i]).replica_id as u16 == id.replica_id
                && counts[i].local_timestamp == id.value,
    decreases counts.len(),
{
    if counts.len() > 0 {
        let rest = counts.drop_last();
        let last = counts[counts.len() - 1];
        if counts_meant(rest).contains_key(id) {
            lemma_counted(rest, id);
            let i = choose|i: int|
                0 <= i < rest.len() && (#[trigger] rest[i]).replica_id as u16 == id.replica_id
                    && rest[i].local_timestamp == id.value;
            assert(counts[i] == rest[i]);
        } else {
            assert(last.replica_id as u16 == id.replica_id && last.local_timestamp == id.value);
        }
    }
}

/// An anchor in a message: its offset, its version, and zero for the left and one for
/// the right.
pub proof fn law_anchor_message(m: Anchor, anchor: AnchorModel)
    requires
        anchor_says(m, anchor),
    ensures
        m.offset == anchor.offset,
        anchor.bias == Bias::Left ==> m.bias == 0,
        anchor.bias == Bias::Right ==> m.bias == 1,
        entries_say(m.version@, anchor.version),
{
}

/// The anchor that a message means; there is none if its bias is neither zero nor one.
pub proof fn law_anchor_from_message(m: Anchor)
    ensures
        match anchor_meant(m) {
            Ok(anchor) => {
                &&& m.bias == 0 ==> anchor.bias == Bias::Left
                &&& m.bias != 0 ==> m.bias == 1 && anchor.bias == Bias::Right
                &&& m.offset <= usize::MAX ==> anchor.offset == m.offset
                &&& anchor.version == entries_version(m.version@)
            },
            Err(error) => m.bias != 0 && m.bias != 1 && error == Error::InvalidAnchorBias(m.bias),
        },
{
}

/// A selection in a message.
pub proof fn law_selection_message(m: Selection, selection: SelectionModel)
    requires
        selection_says(m, selection),
    ensures
        m.id == selection.id,
        m.start is Some && anchor_says(m.start->0, selection.start),
        m.end is Some && anchor_says(m.end->0, selection.end),
        m.reversed == selection.reversed,
{
}

/// The selection that a message means: it has both its ends, and each is that of the
/// message.
pub proof fn law_selection_from_message(m: Selection)
    ensures
        m.start is None ==> selection_meant(m) == Err::<SelectionModel, Error>(
            Error::MissingSelectionStart,
        ),
        m.start is Some && anchor_meant(m.start->0) is Ok && m.end is None ==> selection_meant(m)
            == Err::<SelectionModel, Error>(Error::MissingSelectionEnd),
        selection_meant(m) matches Ok(selection) ==> {
            &&& m.start is Some
            &&& m.end is Some
            &&& anchor_meant(m.start->0) == Ok::<AnchorModel, Error>(selection.start)
            &&& anchor_meant(m.end->0) == Ok::<AnchorModel, Error>(selection.end)
            &&& m.id <= usize::MAX ==> selection.id == m.id
            &&& selection.reversed == m.reversed
        },
        m.start is Some && m.end is Some && anchor_meant(m.start->0) is Ok && anchor_meant(
            m.end->0,
        ) is Ok ==> selection_meant(m) is Ok,
{
}

/// A message about selections names the replica, the set, and when it was sent.
pub proof fn law_selections_message(m: Operation, op: OperationModel)
    requires
        operation_says(m, op),
    ensures
        op matches OperationModel::UpdateSelections { set_id, selections, lamport } ==> {
            &&& m.variant matches Some(Variant::UpdateSelections(update))
            &&& update.replica_id == set_id.replica_id
            &&& update.local_timestamp == set_id.value
            &&& update.lamport_timestamp == lamport.value
            &&& update.set is Some <==> selections is Some
            &&& selections is Some ==> update.set->0.selections@.len() == selections->0.len()
        },
        op matches OperationModel::SetActiveSelections { set_id, lamport } ==> {
            &&& m.variant matches Some(Variant::SetActiveSelections(active))
            &&& active.replica_id == lamport.replica_id
            &&& active.lamport_timestamp == lamport.value
            &&& active.local_timestamp is Some <==> set_id is Some
            &&& set_id is Some ==> active.local_timestamp->0 == (set_id->0).value
        },
        op is Edit ==> m.variant matches Some(Variant::Edit(_)),
        op is Undo ==> m.variant matches Some(Variant::Undo(_)),
{
}

/// A message without an operation is an error; one with an operation means an
/// operation of the same kind.
pub proof fn law_operation_from_message(m: Operation)
    ensures
        m.variant is None ==> operation_meant(m) == Err::<OperationModel, Error>(
            Error::MissingOperation,
        ),
        m.variant matches Some(Variant::Edit(edit)) ==> operation_meant(m) == Ok::<
            OperationModel,
            Error,
        >(OperationModel::Edit(edit_meant(edit))),
        m.variant matches Some(Variant::Undo(undo)) ==> (operation_meant(m) matches Ok(
            OperationModel::Undo { undo: meant, lamport },
        ) && meant.id.value == undo.local_timestamp && lamport.value == undo.lamport_timestamp),
        m.variant matches Some(Variant::UpdateSelections(update)) ==> (operation_meant(
            m,
        ) matches Ok(op) ==> (op matches OperationModel::UpdateSelections {
            set_id,
            selections,
            lamport,
        } && set_id.value == update.local_timestamp && lamport.value == update.lamport_timestamp
            && (update.set is Some <==> selections is Some))),
        m.variant matches Some(Variant::SetActiveSelections(active)) ==> (operation_meant(
            m,
        ) matches Ok(OperationModel::SetActiveSelections { set_id, lamport }) && lamport.value
            == active.lamport_timestamp && (active.local_timestamp is Some <==> set_id is Some)
            && (set_id is Some ==> (set_id->0).value == active.local_timestamp->0)),
{
}

/// An operation in a message is one of the replica that the message names.
pub proof fn law_replica_in_a_message(m: Operation)
    ensures
        m.variant matches Some(Variant::Undo(undo)) ==> (operation_meant(m) matches Ok(
            OperationModel::Undo { undo: meant, lamport },
        ) && meant.id.replica_id == undo.replica_id as u16 && lamport.replica_id
            == undo.replica_id as u16),
        m.variant matches Some(Variant::UpdateSelections(update)) ==> (operation_meant(
            m,
        ) matches Ok(OperationModel::UpdateSelections { set_id, selections, lamport })
            ==> set_id.replica_id == update.replica_id as u16 && lamport.replica_id
            == update.replica_id as u16),
        m.variant matches Some(Variant::SetActiveSelections(active)) ==> (operation_meant(
            m,
        ) matches Ok(OperationModel::SetActiveSelections { set_id, lamport })
            && lamport.replica_id == active.replica_id as u16 && (set_id is Some ==> (
        set_id->0).replica_id == active.replica_id as u16)),
{
}

/// An undo in a message has the ranges, the version and the counts of the message.
pub proof fn law_undo_from_message(m: Undo, i: int)
    requires
        0 <= i < m.ranges@.len(),
    ensures
        ({
            let undo = undo_meant(m);
            &&& undo.ranges.len() == m.ranges@.len()
            &&& undo.ranges[i].0 == m.ranges@[i].start as usize
            &&& undo.ranges[i].1 == m.ranges@[i].end as usize
            &&& undo.version == entries_version(m.version@)
            &&& undo.counts == counts_meant(m.counts@)
        }),
{
}

/// Selections in a message are those of its parts, in order; if one of them is
/// malformed, the first such error is given.
pub proof fn law_selections_from_message(ms: Seq<Selection>, n: int)
    requires
        0 <= n <= ms.len(),
    ensures
        match selections_meant(ms, n) {
            Ok(selections) => {
                &&& selections.len() == n
                &&& forall|i: int|
                    0 <= i < n ==> selection_meant(#[trigger] ms[i]) == Ok::<_, Error>(
                        selections[i],
                    )
            },
            Err(error) => exists|i: int|
                {
                    &&& 0 <= i < n
                    &&& selection_meant(#[trigger] ms[i]) == Err::<SelectionModel, Error>(error)
                    &&& forall|j: int| 0 <= j < i ==> selection_meant(#[trigger] ms[j]) is Ok
                },
        },
    decreases n,
{
    if n > 0 {
        law_selections_from_message(ms, n - 1);
        match selections_meant(ms, n - 1) {
            Ok(before) => {
                if selection_meant(ms[n - 1]) is Err {
                    assert forall|j: int| 0 <= j < n - 1 implies selection_meant(
                        #[trigger] ms[j],
                    ) is Ok by {
                        assert(selection_meant(ms[j]) == Ok::<_, Error>(before[j]));
                    }
                }
            },
            Err(error) => {
                let i = choose|i: int|
                    {
                        &&& 0 <= i < n - 1
                        &&& selection_meant(#[trigger] ms[i]) == Err::<SelectionModel, Error>(
                            error,
                        )
                        &&& forall|j: int| 0 <= j < i ==> selection_meant(#[trigger] ms[j]) is Ok
                    };
                assert(selection_meant(ms[i]) == Err::<SelectionModel, Error>(error));
            },
        }
    }
}

/// Sets of selections in a message are named by replica and number; each has the
/// selections of its part and is as active as that says, and a later part takes the
/// place of an earlier one of the same name.
pub proof fn law_sets_from_message(ms: Seq<SelectionSetSnapshot>, n: int, id: Lamport)
    requires
        0 <= n < ms.len(),
    ensures
        ({
            let m = ms[n];
            let named = Lamport { replica_id: m.replica_id as u16, value: m.local_timestamp };
            let selections = selections_meant(m.selections@, m.selections@.len() as int);
            &&& sets_meant(ms, 0) == Ok::<_, Error>(Map::<Lamport, SelectionSetModel>::empty())
            &&& match sets_meant(ms, n + 1) {
                Ok(sets) => {
                    &&& sets_meant(ms, n) is Ok
                    &&& selections is Ok
                    &&& sets.contains_key(named)
                    &&& sets[named].selections == selections->Ok_0
                    &&& sets[named].active == m.is_active
                    &&& id != named ==> {
                        let before = sets_meant(ms, n)->Ok_0;
                        &&& sets.contains_key(id) <==> before.contains_key(id)
                        &&& before.contains_key(id) ==> sets[id] == before[id]
                    }
                },
                Err(error) => sets_meant(ms, n) == Err::<Map<Lamport, SelectionSetModel>, Error>(
                    error,
                ) || (sets_meant(ms, n) is Ok && selections == Err::<Seq<SelectionModel>, Error>(
                    error,
                )),
            }
        }),
{
}

} // verus!
