//! The messages that replicas exchange, as plain values.

use vstd::prelude::*;

use crate::clock::{Lamport, Local, ReplicaId, Version, version_of};
use crate::error::Error;
use crate::fragment::InsertionTimestamp;
use crate::operation::{
    AnchorModel, EditModel, OperationModel, SelectionGoal, SelectionModel, SelectionSetModel,
    chars_of,
};
use crate::rope::Bias;
use crate::undo::Undo as UndoModel;

verus! {

/// The largest operation seen of a replica.
#[derive(Clone, Copy, Debug, PartialEq, Eq, Structural)]
pub struct VectorClockEntry {
    pub replica_id: u32,
    pub timestamp: u32,
}

/// A range of offsets.
#[derive(Clone, Copy, Debug, PartialEq, Eq, Structural)]
pub struct Range {
    pub start: u64,
    pub end: u64,
}

/// How often an edit has been undone and redone.
#[derive(Clone, Copy, Debug, PartialEq, Eq, Structural)]
pub struct UndoCount {
    pub replica_id: u32,
    pub local_timestamp: u32,
    pub count: u32,
}

#[derive(Debug)]
pub struct Edit {
    pub replica_id: u32,
    pub local_timestamp: u32,
    pub lamport_timestamp: u32,
    pub version: Vec<VectorClockEntry>,
    pub ranges: Vec<Range>,
    pub new_text: Option<String>,
}

#[derive(Debug)]
pub struct Undo {
    pub replica_id: u32,
    pub local_timestamp: u32,
    pub lamport_timestamp: u32,
    pub ranges: Vec<Range>,
    pub version: Vec<VectorClockEntry>,
    pub counts: Vec<UndoCount>,
}

#[derive(Debug)]
pub struct Anchor {
    pub version: Vec<VectorClockEntry>,
    pub offset: u64,
    pub bias: i32,
}

#[derive(Debug)]
pub struct Selection {
    pub id: u64,
    pub start: Option<Anchor>,
    pub end: Option<Anchor>,
    pub reversed: bool,
}

#[derive(Debug)]
pub struct SelectionSet {
    pub selections: Vec<Selection>,
}

#[derive(Debug)]
pub struct UpdateSelections {
    pub replica_id: u32,
    pub local_timestamp: u32,
    pub lamport_timestamp: u32,
    pub set: Option<SelectionSet>,
}

#[derive(Debug)]
pub struct SetActiveSelections {
    pub replica_id: u32,
    pub local_timestamp: Option<u32>,
    pub lamport_timestamp: u32,
}

#[derive(Debug)]
pub enum Variant {
    Edit(Edit),
    Undo(Undo),
    UpdateSelections(UpdateSelections),
    SetActiveSelections(SetActiveSelections),
}

#[derive(Debug)]
pub struct Operation {
    pub variant: Option<Variant>,
}

#[derive(Debug)]
pub struct SelectionSetSnapshot {
    pub replica_id: u32,
    pub local_timestamp: u32,
    pub selections: Vec<Selection>,
    pub is_active: bool,
}

#[derive(Debug)]
pub struct Buffer {
    pub id: u64,
    pub content: String,
    pub history: Vec<Edit>,
    pub selections: Vec<SelectionSetSnapshot>,
}

/// The number of `Bias::Left` in a message.
pub const BIAS_LEFT: i32 = 0;

/// The number of `Bias::Right` in a message.
pub const BIAS_RIGHT: i32 = 1;

/// The replica that a message names.
pub open spec fn replica_of(replica_id: u32) -> ReplicaId {
    replica_id as u16
}

/// The operations that a version in a message names.
pub open spec fn entry_locals(entries: Seq<VectorClockEntry>) -> Seq<Local> {
    entries.map_values(
        |e: VectorClockEntry| Local { replica_id: replica_of(e.replica_id), value: e.timestamp },
    )
}

/// The version that a message means.
pub open spec fn entries_version(entries: Seq<VectorClockEntry>) -> Version {
    version_of(entry_locals(entries))
}

/// The message lists the entries of the version, one for each replica.
pub open spec fn entries_say(entries: Seq<VectorClockEntry>, version: Version) -> bool {
    &&& entries_version(entries) == version
    &&& forall|i: int|
        0 <= i < entries.len() ==> (#[trigger] entries[i]).replica_id <= u16::MAX
    &&& forall|i: int, j: int|
        0 <= i < j < entries.len() ==> (#[trigger] entries[i]).replica_id != (
        #[trigger] entries[j]).replica_id
}

/// The ranges that a message means.
pub open spec fn ranges_meant(ranges: Seq<Range>) -> Seq<(int, int)> {
    ranges.map_values(|r: Range| (r.start as usize as int, r.end as usize as int))
}

/// The ranges as a message holds them.
pub open spec fn range_messages(ranges: Seq<(int, int)>) -> Seq<Range> {
    ranges.map_values(|r: (int, int)| Range { start: r.0 as u64, end: r.1 as u64 })
}

/// The edit that a message means.
pub open spec fn edit_meant(m: Edit) -> EditModel {
    EditModel {
        timestamp: InsertionTimestamp {
            replica_id: replica_of(m.replica_id),
            local: m.local_timestamp,
            lamport: m.lamport_timestamp,
        },
        version: entries_version(m.version@),
        ranges: ranges_meant(m.ranges@),
        new_text: chars_of(m.new_text),
    }
}

/// The message holds the edit.
pub open spec fn edit_says(m: Edit, edit: EditModel) -> bool {
    &&& m.replica_id == edit.timestamp.replica_id
    &&& m.local_timestamp == edit.timestamp.local
    &&& m.lamport_timestamp == edit.timestamp.lamport
    &&& entries_say(m.version@, edit.version)
    &&& m.ranges@ == range_messages(edit.ranges)
    &&& chars_of(m.new_text) == edit.new_text
}

/// The edit that a count in a message is about.
pub open spec fn counted_edit(count: UndoCount) -> Local {
    Local { replica_id: replica_of(count.replica_id), value: count.local_timestamp }
}

/// The counts that a message means; where it counts an edit twice, the later
/// count holds.
pub open spec fn counts_meant(counts: Seq<UndoCount>) -> Map<Local, u32>
    decreases counts.len(),
{
    if counts.len() == 0 {
        Map::empty()
    } else {
        counts_meant(counts.drop_last()).insert(counted_edit(counts.last()), counts.last().count)
    }
}

/// The message holds the counts, each once.
pub open spec fn counts_say(counts: Seq<UndoCount>, map: Map<Local, u32>) -> bool {
    &&& counts_meant(counts) == map
    &&& forall|i: int| 0 <= i < counts.len() ==> (#[trigger] counts[i]).replica_id <= u16::MAX
    &&& forall|i: int, j: int|
        0 <= i < j < counts.len() ==> counted_edit(#[trigger] counts[i]) != counted_edit(
            #[trigger] counts[j],
        )
}

/// The undo that a message means.
pub open spec fn undo_meant(m: Undo) -> UndoModel {
    UndoModel {
        id: Local { replica_id: replica_of(m.replica_id), value: m.local_timestamp },
        counts: counts_meant(m.counts@),
        ranges: ranges_meant(m.ranges@),
        version: entries_version(m.version@),
    }
}

/// The message holds the undo.
pub open spec fn undo_says(m: Undo, undo: UndoModel, lamport: Lamport) -> bool {
    &&& m.replica_id == undo.id.replica_id
    &&& m.local_timestamp == undo.id.value
    &&& m.lamport_timestamp == lamport.value
    &&& m.ranges@ == range_messages(undo.ranges)
    &&& entries_say(m.version@, undo.version)
    &&& counts_say(m.counts@, undo.counts)
}

/// The anchor that a message means, if its bias is one.
pub open spec fn anchor_meant(m: Anchor) -> Result<AnchorModel, Error> {
    if m.bias == BIAS_LEFT || m.bias == BIAS_RIGHT {
        Ok(
            AnchorModel {
                offset: m.offset as usize as int,
                bias: if m.bias == BIAS_LEFT {
                    Bias::Left
                } else {
                    Bias::Right
                },
                version: entries_version(m.version@),
            },
        )
    } else {
        Err(Error::InvalidAnchorBias(m.bias))
    }
}

/// The number of a bias in a message.
pub open spec fn bias_number(bias: Bias) -> i32 {
    match bias {
        Bias::Left => BIAS_LEFT,
        Bias::Right => BIAS_RIGHT,
    }
}

/// The message holds the anchor.
pub open spec fn anchor_says(m: Anchor, anchor: AnchorModel) -> bool {
    &&& entries_say(m.version@, anchor.version)
    &&& m.offset == anchor.offset
    &&& m.bias == bias_number(anchor.bias)
}

/// The selection that a message means, if it has both its ends.
pub open spec fn selection_meant(m: Selection) -> Result<SelectionModel, Error> {
    match m.start {
        Some(start) => match anchor_meant(start) {
            Ok(start) => match m.end {
                Some(end) => match anchor_meant(end) {
                    Ok(end) => Ok(
                        SelectionModel {
                            id: m.id as usize,
                            start,
                            end,
                            reversed: m.reversed,
                            goal: SelectionGoal::NoGoal,
                        },
                    ),
                    Err(error) => Err(error),
                },
                None => Err(Error::MissingSelectionEnd),
            },
            Err(error) => Err(error),
        },
        None => Err(Error::MissingSelectionStart),
    }
}

/// The message holds the selection, but for its goal.
pub open spec fn selection_says(m: Selection, selection: SelectionModel) -> bool {
    &&& m.id == selection.id
    &&& m.start is Some
    &&& anchor_says(m.start->0, selection.start)
    &&& m.end is Some
    &&& anchor_says(m.end->0, selection.end)
    &&& m.reversed == selection.reversed
}

/// The selections that the first `n` messages mean; the first error if one is
/// malformed.
pub open spec fn selections_meant(ms: Seq<Selection>, n: int) -> Result<Seq<SelectionModel>, Error>
    decreases n,
{
    if n <= 0 {
        Ok(Seq::empty())
    } else {
        match selections_meant(ms, n - 1) {
            Ok(before) => match selection_meant(ms[n - 1]) {
                Ok(selection) => Ok(before.push(selection)),
                Err(error) => Err(error),
            },
            Err(error) => Err(error),
        }
    }
}

/// The messages hold the selections, but for their goals.
pub open spec fn selections_say(ms: Seq<Selection>, selections: Seq<SelectionModel>) -> bool {
    &&& ms.len() == selections.len()
    &&& forall|i: int| 0 <= i < ms.len() ==> selection_says(#[trigger] ms[i], selections[i])
}

/// The operation that a message means.
pub open spec fn operation_meant(m: Operation) -> Result<OperationModel, Error> {
    match m.variant {
        None => Err(Error::MissingOperation),
        Some(Variant::Edit(edit)) => Ok(OperationModel::Edit(edit_meant(edit))),
        Some(Variant::Undo(undo)) => Ok(
            OperationModel::Undo {
                undo: undo_meant(undo),
                lamport: Lamport {
                    replica_id: replica_of(undo.replica_id),
                    value: undo.lamport_timestamp,
                },
            },
        ),
        Some(Variant::UpdateSelections(update)) => {
            let set_id = Lamport {
                replica_id: replica_of(update.replica_id),
                value: update.local_timestamp,
            };
            let lamport = Lamport {
                replica_id: replica_of(update.replica_id),
                value: update.lamport_timestamp,
            };
            match update.set {
                Some(set) => match selections_meant(set.selections@, set.selections@.len() as int) {
                    Ok(selections) => Ok(
                        OperationModel::UpdateSelections {
                            set_id,
                            selections: Some(selections),
                            lamport,
                        },
                    ),
                    Err(error) => Err(error),
                },
                None => Ok(OperationModel::UpdateSelections { set_id, selections: None, lamport }),
            }
        },
        Some(Variant::SetActiveSelections(active)) => Ok(
            OperationModel::SetActiveSelections {
                set_id: match active.local_timestamp {
                    Some(value) => Some(
                        Lamport { replica_id: replica_of(active.replica_id), value },
                    ),
                    None => None,
                },
                lamport: Lamport {
                    replica_id: replica_of(active.replica_id),
                    value: active.lamport_timestamp,
                },
            },
        ),
    }
}

/// The message holds the operation, as far as messages do: the goals of
/// selections are left out, and an operation on selections names one replica.
pub open spec fn operation_says(m: Operation, op: OperationModel) -> bool {
    match op {
        OperationModel::Edit(edit) => m.variant matches Some(Variant::Edit(message)) && edit_says(
            message,
            edit,
        ),
        OperationModel::Undo { undo, lamport } => m.variant matches Some(Variant::Undo(message))
            && undo_says(message, undo, lamport),
        OperationModel::UpdateSelections { set_id, selections, lamport } => m.variant matches Some(
            Variant::UpdateSelections(message),
        ) && message.replica_id == set_id.replica_id && message.local_timestamp == set_id.value
            && message.lamport_timestamp == lamport.value && match selections {
            Some(selections) => message.set matches Some(set) && selections_say(
                set.selections@,
                selections,
            ),
            None => message.set is None,
        },
        OperationModel::SetActiveSelections { set_id, lamport } => m.variant matches Some(
            Variant::SetActiveSelections(message),
        ) && message.replica_id == lamport.replica_id && message.local_timestamp == match set_id {
            Some(set_id) => Some(set_id.value),
            None => None,
        } && message.lamport_timestamp == lamport.value,
    }
}

/// What a message cannot say is not there: an operation names one replica
/// throughout, its offsets are those of a machine, and no selection has a goal.
pub open spec fn can_say(op: OperationModel) -> bool {
    match op {
        OperationModel::Edit(edit) => ranges_fit(edit.ranges),
        OperationModel::Undo { undo, lamport } => {
            &&& ranges_fit(undo.ranges)
            &&& lamport.replica_id == undo.id.replica_id
        },
        OperationModel::UpdateSelections { set_id, selections, lamport } => {
            &&& lamport.replica_id == set_id.replica_id
            &&& selections matches Some(selections) ==> no_goals(selections)
        },
        OperationModel::SetActiveSelections { set_id, lamport } => {
            set_id matches Some(set_id) ==> lamport.replica_id == set_id.replica_id
        },
    }
}

/// The ends of the ranges are offsets of a machine.
pub open spec fn ranges_fit(ranges: Seq<(int, int)>) -> bool {
    forall|i: int|
        0 <= i < ranges.len() ==> 0 <= (#[trigger] ranges[i]).0 <= usize::MAX && 0 <= ranges[i].1
            <= usize::MAX
}

/// No selection has a goal.
pub open spec fn no_goals(selections: Seq<SelectionModel>) -> bool {
    forall|i: int|
        0 <= i < selections.len() ==> (#[trigger] selections[i]).goal == SelectionGoal::NoGoal
            && 0 <= selections[i].start.offset <= usize::MAX && 0 <= selections[i].end.offset
            <= usize::MAX
}

proof fn lemma_ranges(ranges: Seq<(int, int)>)
    requires
        ranges_fit(ranges),
    ensures
        ranges_meant(range_messages(ranges)) == ranges,
{
    assert forall|i: int| 0 <= i < ranges.len() implies ranges_meant(range_messages(ranges))[i]
        == ranges[i] by {
        assert(range_messages(ranges)[i] == (Range {
            start: ranges[i].0 as u64,
            end: ranges[i].1 as u64,
        }));
    }
    assert(ranges_meant(range_messages(ranges)) =~= ranges);
}

pub proof fn lemma_selections(ms: Seq<Selection>, selections: Seq<SelectionModel>, n: int)
    requires
        selections_say(ms, selections),
        no_goals(selections),
        0 <= n <= ms.len(),
    ensures
        selections_meant(ms, n) == Ok::<Seq<SelectionModel>, Error>(selections.take(n)),
    decreases n,
{
    if n > 0 {
        lemma_selections(ms, selections, n - 1);
        assert(selection_says(ms[n - 1], selections[n - 1]));
        assert(selections[n - 1].goal == SelectionGoal::NoGoal);
        assert(selection_meant(ms[n - 1]) == Ok::<SelectionModel, Error>(selections[n - 1]));
        assert(selections.take(n - 1).push(selections[n - 1]) =~= selections.take(n));
    } else {
        assert(selections.take(0) =~= Seq::empty());
    }
}

/// What a replica reads out of a message is the operation that another has
/// written into it.
pub proof fn law_message_round_trip(m: Operation, op: OperationModel)
    requires
        operation_says(m, op),
        can_say(op),
    ensures
        operation_meant(m) == Ok::<OperationModel, Error>(op),
{
    match op {
        OperationModel::Edit(edit) => {
            lemma_ranges(edit.ranges);
        },
        OperationModel::Undo { undo, lamport } => {
            lemma_ranges(undo.ranges);
        },
        OperationModel::UpdateSelections { set_id, selections, lamport } => {
            match selections {
                Some(selections) => {
                    let ms = m.variant->0->UpdateSelections_0.set->0.selections@;
                    lemma_selections(ms, selections, ms.len() as int);
                    assert(selections.take(ms.len() as int) =~= selections);
                },
                None => {},
            }
        },
        OperationModel::SetActiveSelections { set_id, lamport } => {},
    }
}

/// The sets of selections that the first `n` messages mean; the first error if
/// one is malformed.
pub open spec fn sets_meant(ms: Seq<SelectionSetSnapshot>, n: int) -> Result<
    Map<Lamport, SelectionSetModel>,
    Error,
>
    decreases n,
{
    if n <= 0 {
        Ok(Map::empty())
    } else {
        match sets_meant(ms, n - 1) {
            Ok(before) => {
                let m = ms[n - 1];
                match selections_meant(m.selections@, m.selections@.len() as int) {
                    Ok(selections) => Ok(
                        before.insert(
                            Lamport {
                                replica_id: replica_of(m.replica_id),
                                value: m.local_timestamp,
                            },
                            SelectionSetModel { selections, active: m.is_active },
                        ),
                    ),
                    Err(error) => Err(error),
                }
            },
            Err(error) => Err(error),
        }
    }
}

/// The edits that messages mean.
pub open spec fn edits_meant(ms: Seq<Edit>) -> Seq<OperationModel> {
    ms.map_values(|m: Edit| OperationModel::Edit(edit_meant(m)))
}

} // verus!
