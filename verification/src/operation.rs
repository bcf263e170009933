//! Operations: what replicas tell each other.

use std::ops::Range;
use vstd::prelude::*;
use vstd::utf8::*;

use crate::clock::{Global, Lamport, Local, ReplicaId, Version};
use crate::fragment::{InsertionTimestamp, lamport_of};
use crate::local_map::LocalMap;
use crate::remote::pairs;
use crate::rope::Bias;
use crate::undo::Undo;

verus! {

/// Names a set of selections.
pub type SelectionSetId = Lamport;

/// A place in the text that an edit elsewhere does not move: an offset in all
/// the text that a version had seen, and the side of it to stay on.
#[derive(Debug)]
pub struct Anchor {
    pub offset: usize,
    pub bias: Bias,
    pub version: Global,
}

/// What an anchor means.
#[verifier::ext_equal]
pub ghost struct AnchorModel {
    pub offset: int,
    pub bias: Bias,
    pub version: Version,
}

impl View for Anchor {
    type V = AnchorModel;

    open spec fn view(&self) -> AnchorModel {
        AnchorModel { offset: self.offset as int, bias: self.bias, version: self.version@ }
    }
}

impl Clone for Anchor {
    fn clone(&self) -> (copy: Self)
        ensures
            copy@ == self@,
    {
        Anchor { offset: self.offset, bias: self.bias, version: self.version.clone() }
    }
}

/// The column that a selection tries to keep while it moves over rows.
#[derive(Clone, Copy, Debug, PartialEq, Eq, Structural)]
pub enum SelectionGoal {
    NoGoal,
    Column(u32),
    ColumnRange { start: u32, end: u32 },
}

/// A selected range of text, and which of its ends moves.
#[derive(Debug)]
pub struct Selection {
    pub id: usize,
    pub start: Anchor,
    pub end: Anchor,
    pub reversed: bool,
    pub goal: SelectionGoal,
}

/// What a selection means.
#[verifier::ext_equal]
pub ghost struct SelectionModel {
    pub id: usize,
    pub start: AnchorModel,
    pub end: AnchorModel,
    pub reversed: bool,
    pub goal: SelectionGoal,
}

impl View for Selection {
    type V = SelectionModel;

    open spec fn view(&self) -> SelectionModel {
        SelectionModel {
            id: self.id,
            start: self.start@,
            end: self.end@,
            reversed: self.reversed,
            goal: self.goal,
        }
    }
}

impl Clone for Selection {
    fn clone(&self) -> (copy: Self)
        ensures
            copy@ == self@,
    {
        Selection {
            id: self.id,
            start: self.start.clone(),
            end: self.end.clone(),
            reversed: self.reversed,
            goal: self.goal,
        }
    }
}

/// What a list of selections means.
pub open spec fn selection_models(selections: Seq<Selection>) -> Seq<SelectionModel> {
    selections.map_values(|s: Selection| s@)
}

pub fn clone_selections(selections: &Vec<Selection>) -> (copy: Vec<Selection>)
    ensures
        selection_models(copy@) == selection_models(selections@),
{
    let mut copy: Vec<Selection> = Vec::new();
    let mut i: usize = 0;
    while i < selections.len()
        invariant
            i <= selections@.len(),
            copy@.len() == i,
            forall|j: int| 0 <= j < i ==> (#[trigger] copy@[j])@ == selections@[j]@,
        decreases selections@.len() - i,
    {
        copy.push(selections[i].clone());
        i = i + 1;
    }
    assert(selection_models(copy@) =~= selection_models(selections@));
    copy
}

pub fn clone_ranges(ranges: &Vec<Range<usize>>) -> (copy: Vec<Range<usize>>)
    ensures
        copy@ == ranges@,
{
    let mut copy: Vec<Range<usize>> = Vec::new();
    let mut i: usize = 0;
    while i < ranges.len()
        invariant
            i <= ranges@.len(),
            copy@ =~= ranges@.take(i as int),
        decreases ranges@.len() - i,
    {
        copy.push(ranges[i].start..ranges[i].end);
        i = i + 1;
    }
    assert(ranges@.take(ranges@.len() as int) =~= ranges@);
    copy
}

/// The text of a string that may be absent.
pub open spec fn chars_of(text: Option<String>) -> Option<Seq<char>> {
    match text {
        Some(text) => Some(text@),
        None => None,
    }
}

/// The bytes of a text that may be absent.
pub open spec fn bytes_of(text: Option<Seq<char>>) -> Seq<u8> {
    match text {
        Some(text) => encode_utf8(text),
        None => Seq::empty(),
    }
}

pub fn clone_text(text: &Option<String>) -> (copy: Option<String>)
    ensures
        chars_of(copy) == chars_of(*text),
{
    match text {
        Some(text) => Some(text.clone()),
        None => None,
    }
}

/// An edit: text that was inserted at the start of each range, and the ranges
/// whose text was removed, in all the text that the version had seen.
#[derive(Debug)]
pub struct EditOperation {
    pub timestamp: InsertionTimestamp,
    pub version: Global,
    pub ranges: Vec<Range<usize>>,
    pub new_text: Option<String>,
}

/// What an edit means.
#[verifier::ext_equal]
pub ghost struct EditModel {
    pub timestamp: InsertionTimestamp,
    pub version: Version,
    pub ranges: Seq<(int, int)>,
    pub new_text: Option<Seq<char>>,
}

impl View for EditOperation {
    type V = EditModel;

    open spec fn view(&self) -> EditModel {
        EditModel {
            timestamp: self.timestamp,
            version: self.version@,
            ranges: pairs(self.ranges@),
            new_text: chars_of(self.new_text),
        }
    }
}

impl Clone for EditOperation {
    fn clone(&self) -> (copy: Self)
        ensures
            copy@ == self@,
    {
        EditOperation {
            timestamp: self.timestamp,
            version: self.version.clone(),
            ranges: clone_ranges(&self.ranges),
            new_text: clone_text(&self.new_text),
        }
    }
}

/// An undo or redo: how often each edit has been undone and redone by now, and
/// the ranges that the edits touched.
#[derive(Debug)]
pub struct UndoOperation {
    pub id: Local,
    pub counts: LocalMap<u32>,
    pub ranges: Vec<Range<usize>>,
    pub version: Global,
}

impl View for UndoOperation {
    type V = Undo;

    open spec fn view(&self) -> Undo {
        Undo {
            id: self.id,
            counts: self.counts@,
            ranges: pairs(self.ranges@),
            version: self.version@,
        }
    }
}

impl Clone for UndoOperation {
    fn clone(&self) -> (copy: Self)
        ensures
            copy@ == self@,
    {
        UndoOperation {
            id: self.id,
            counts: self.counts.clone(),
            ranges: clone_ranges(&self.ranges),
            version: self.version.clone(),
        }
    }
}

#[derive(Debug)]
#[allow(inconsistent_fields)]
pub enum Operation {
    Edit(EditOperation),
    Undo { undo: UndoOperation, lamport_timestamp: Lamport },
    UpdateSelections {
        set_id: SelectionSetId,
        selections: Option<Vec<Selection>>,
        lamport_timestamp: Lamport,
    },
    SetActiveSelections { set_id: Option<SelectionSetId>, lamport_timestamp: Lamport },
}

/// What an operation means.
#[allow(inconsistent_fields)]
pub ghost enum OperationModel {
    Edit(EditModel),
    Undo { undo: Undo, lamport: Lamport },
    UpdateSelections {
        set_id: SelectionSetId,
        selections: Option<Seq<SelectionModel>>,
        lamport: Lamport,
    },
    SetActiveSelections { set_id: Option<SelectionSetId>, lamport: Lamport },
}

/// What a list of selections that may be absent means.
pub open spec fn maybe_models(selections: Option<Vec<Selection>>) -> Option<Seq<SelectionModel>> {
    match selections {
        Some(selections) => Some(selection_models(selections@)),
        None => None,
    }
}

impl View for Operation {
    type V = OperationModel;

    open spec fn view(&self) -> OperationModel {
        match self {
            Operation::Edit(edit) => OperationModel::Edit(edit@),
            Operation::Undo { undo, lamport_timestamp } => OperationModel::Undo {
                undo: undo@,
                lamport: *lamport_timestamp,
            },
            Operation::UpdateSelections { set_id, selections, lamport_timestamp } => {
                OperationModel::UpdateSelections {
                    set_id: *set_id,
                    selections: maybe_models(*selections),
                    lamport: *lamport_timestamp,
                }
            },
            Operation::SetActiveSelections { set_id, lamport_timestamp } => {
                OperationModel::SetActiveSelections { set_id: *set_id, lamport: *lamport_timestamp }
            },
        }
    }
}

impl Clone for Operation {
    fn clone(&self) -> (copy: Self)
        ensures
            copy@ == self@,
    {
        match self {
            Operation::Edit(edit) => Operation::Edit(edit.clone()),
            Operation::Undo { undo, lamport_timestamp } => Operation::Undo {
                undo: undo.clone(),
                lamport_timestamp: *lamport_timestamp,
            },
            Operation::UpdateSelections { set_id, selections, lamport_timestamp } => {
                let selections = match selections {
                    Some(selections) => Some(clone_selections(selections)),
                    None => None,
                };
                Operation::UpdateSelections {
                    set_id: *set_id,
                    selections,
                    lamport_timestamp: *lamport_timestamp,
                }
            },
            Operation::SetActiveSelections { set_id, lamport_timestamp } => {
                Operation::SetActiveSelections {
                    set_id: *set_id,
                    lamport_timestamp: *lamport_timestamp,
                }
            },
        }
    }
}

/// When an operation was made, in the Lamport order.
pub open spec fn lamport_timestamp_of(op: OperationModel) -> Lamport {
    match op {
        OperationModel::Edit(edit) => lamport_of(edit.timestamp),
        OperationModel::Undo { undo, lamport } => lamport,
        OperationModel::UpdateSelections { set_id, selections, lamport } => lamport,
        OperationModel::SetActiveSelections { set_id, lamport } => lamport,
    }
}

/// What a list of operations means.
pub open spec fn operation_models(ops: Seq<Operation>) -> Seq<OperationModel> {
    ops.map_values(|op: Operation| op@)
}

impl Operation {
    /// The replica that made the operation.
    pub fn replica_id(&self) -> (replica_id: ReplicaId)
        ensures
            replica_id == lamport_timestamp_of(self@).replica_id,
    {
        self.lamport_timestamp().replica_id
    }

    /// When the operation was made.
    pub fn lamport_timestamp(&self) -> (timestamp: Lamport)
        ensures
            timestamp == lamport_timestamp_of(self@),
    {
        match self {
            Operation::Edit(edit) => edit.timestamp.lamport(),
            Operation::Undo { undo: _, lamport_timestamp } => *lamport_timestamp,
            Operation::UpdateSelections { set_id: _, selections: _, lamport_timestamp } => {
                *lamport_timestamp
            },
            Operation::SetActiveSelections { set_id: _, lamport_timestamp } => *lamport_timestamp,
        }
    }

    pub fn is_edit(&self) -> (b: bool)
        ensures
            b == (self@ is Edit),
    {
        match self {
            Operation::Edit(_) => true,
            _ => false,
        }
    }
}

/// Selections that are shown together.
#[derive(Debug)]
pub struct SelectionSet {
    pub selections: Vec<Selection>,
    pub active: bool,
}

/// What a set of selections means.
#[verifier::ext_equal]
pub ghost struct SelectionSetModel {
    pub selections: Seq<SelectionModel>,
    pub active: bool,
}

impl View for SelectionSet {
    type V = SelectionSetModel;

    open spec fn view(&self) -> SelectionSetModel {
        SelectionSetModel { selections: selection_models(self.selections@), active: self.active }
    }
}

impl Clone for SelectionSet {
    fn clone(&self) -> (copy: Self)
        ensures
            copy@ == self@,
    {
        SelectionSet { selections: clone_selections(&self.selections), active: self.active }
    }
}

} // verus!
