//! Operations to messages and back.

use vstd::prelude::*;

use crate::clock::{Global, Lamport, Local, ReplicaId};
use crate::error::Error;
use crate::fragment::InsertionTimestamp;
use crate::local_map::LocalMap;
use crate::operation::{
    Anchor, EditOperation, Operation, Selection, SelectionGoal, SelectionModel, UndoOperation,
    clone_text, selection_models,
};
use crate::proto;
use crate::proto::{
    BIAS_LEFT, BIAS_RIGHT, anchor_meant, anchor_says, counted_edit, counts_meant, counts_say,
    edit_meant, edit_says, entries_say, entries_version, entry_locals, operation_meant,
    operation_says, range_messages, ranges_meant, replica_of, selection_meant, selection_says,
    selections_meant, selections_say,
};
use crate::remote::pairs;
use crate::rope::Bias;

verus! {

fn replica(replica_id: u32) -> (id: ReplicaId)
    ensures
        id == replica_of(replica_id),
{
    #[verifier::truncate] (replica_id as u16)
}

/// The entries of a version, for a message.
pub fn version_to_proto(version: &Global) -> (entries: Vec<proto::VectorClockEntry>)
    ensures
        entries_say(entries@, version@),
{
    let locals = version.entries();
    let mut entries: Vec<proto::VectorClockEntry> = Vec::new();
    let mut i: usize = 0;
    while i < locals.len()
        invariant
            i <= locals@.len(),
            entries@.len() == i,
            forall|j: int|
                0 <= j < i ==> #[trigger] entries@[j] == (proto::VectorClockEntry {
                    replica_id: locals@[j].replica_id as u32,
                    timestamp: locals@[j].value,
                }),
        decreases locals@.len() - i,
    {
        let local = locals[i];
        entries.push(
            proto::VectorClockEntry { replica_id: local.replica_id as u32, timestamp: local.value },
        );
        i = i + 1;
    }
    proof {
        assert forall|j: int| 0 <= j < locals@.len() implies entry_locals(entries@)[j]
            == locals@[j] by {
            assert(entries@[j].replica_id == locals@[j].replica_id);
        }
        assert(entry_locals(entries@) =~= locals@);
        assert forall|a: int, b: int| 0 <= a < b < entries@.len() implies (
        #[trigger] entries@[a]).replica_id != (#[trigger] entries@[b]).replica_id by {
            assert(locals@[a].replica_id != locals@[b].replica_id);
        }
    }
    entries
}

/// The version that a message means.
pub fn version_from_proto(entries: &Vec<proto::VectorClockEntry>) -> (version: Global)
    ensures
        version@ == entries_version(entries@),
{
    let mut version = Global::new();
    let mut i: usize = 0;
    assert(entry_locals(entries@.take(0)) =~= Seq::<Local>::empty());
    while i < entries.len()
        invariant
            i <= entries@.len(),
            version@ == entries_version(entries@.take(i as int)),
        decreases entries@.len() - i,
    {
        let entry = entries[i];
        version.observe(Local { replica_id: replica(entry.replica_id), value: entry.timestamp });
        proof {
            let now = entry_locals(entries@.take(i + 1));
            assert(now.drop_last() =~= entry_locals(entries@.take(i as int)));
            assert(now.last() == (Local {
                replica_id: replica_of(entry.replica_id),
                value: entry.timestamp,
            }));
        }
        i = i + 1;
    }
    assert(entries@.take(i as int) =~= entries@);
    version
}

fn ranges_to_proto(ranges: &Vec<std::ops::Range<usize>>) -> (messages: Vec<proto::Range>)
    ensures
        messages@ == range_messages(pairs(ranges@)),
{
    let mut messages: Vec<proto::Range> = Vec::new();
    let mut i: usize = 0;
    while i < ranges.len()
        invariant
            i <= ranges@.len(),
            messages@.len() == i,
            forall|j: int|
                0 <= j < i ==> #[trigger] messages@[j] == (proto::Range {
                    start: ranges@[j].start as u64,
                    end: ranges@[j].end as u64,
                }),
        decreases ranges@.len() - i,
    {
        messages.push(
            proto::Range { start: ranges[i].start as u64, end: ranges[i].end as u64 },
        );
        i = i + 1;
    }
    proof {
        let goal = range_messages(pairs(ranges@));
        assert forall|j: int| 0 <= j < goal.len() implies messages@[j] == goal[j] by {
            assert(pairs(ranges@)[j] == (ranges@[j].start as int, ranges@[j].end as int));
        }
        assert(messages@ =~= goal);
    }
    messages
}

fn ranges_from_proto(messages: &Vec<proto::Range>) -> (ranges: Vec<std::ops::Range<usize>>)
    ensures
        pairs(ranges@) == ranges_meant(messages@),
{
    let mut ranges: Vec<std::ops::Range<usize>> = Vec::new();
    let mut i: usize = 0;
    while i < messages.len()
        invariant
            i <= messages@.len(),
            ranges@.len() == i,
            forall|j: int|
                0 <= j < i ==> (#[trigger] ranges@[j]).start == messages@[j].start as usize
                    && ranges@[j].end == messages@[j].end as usize,
        decreases messages@.len() - i,
    {
        let start: usize = #[verifier::truncate] (messages[i].start as usize);
        let end: usize = #[verifier::truncate] (messages[i].end as usize);
        ranges.push(start..end);
        i = i + 1;
    }
    proof {
        let goal = ranges_meant(messages@);
        assert forall|j: int| 0 <= j < goal.len() implies pairs(ranges@)[j] == goal[j] by {
            assert(pairs(ranges@)[j] == (ranges@[j].start as int, ranges@[j].end as int));
        }
        assert(pairs(ranges@) =~= goal);
    }
    ranges
}

impl EditOperation {
    /// The edit as a message.
    pub fn to_proto(&self) -> (message: proto::Edit)
        ensures
            edit_says(message, self@),
    {
        proto::Edit {
            replica_id: self.timestamp.replica_id as u32,
            local_timestamp: self.timestamp.local,
            lamport_timestamp: self.timestamp.lamport,
            version: version_to_proto(&self.version),
            ranges: ranges_to_proto(&self.ranges),
            new_text: clone_text(&self.new_text),
        }
    }

    /// The edit that a message means.
    pub fn from_proto(message: proto::Edit) -> (edit: EditOperation)
        ensures
            edit@ == edit_meant(message),
    {
        EditOperation {
            timestamp: InsertionTimestamp {
                replica_id: replica(message.replica_id),
                local: message.local_timestamp,
                lamport: message.lamport_timestamp,
            },
            version: version_from_proto(&message.version),
            ranges: ranges_from_proto(&message.ranges),
            new_text: message.new_text,
        }
    }
}

impl Anchor {
    /// The anchor as a message.
    pub fn to_proto(&self) -> (message: proto::Anchor)
        ensures
            anchor_says(message, self@),
    {
        proto::Anchor {
            version: version_to_proto(&self.version),
            offset: self.offset as u64,
            bias: match self.bias {
                Bias::Left => BIAS_LEFT,
                Bias::Right => BIAS_RIGHT,
            },
        }
    }

    /// The anchor that a message means; an error if its bias is not one.
    pub fn from_proto(message: &proto::Anchor) -> (anchor: Result<Anchor, Error>)
        ensures
            match anchor {
                Ok(anchor) => anchor_meant(*message) == Ok::<_, Error>(anchor@),
                Err(error) => anchor_meant(*message) == Err::<
                    crate::operation::AnchorModel,
                    Error,
                >(error),
            },
    {
        let bias = if message.bias == BIAS_LEFT {
            Bias::Left
        } else if message.bias == BIAS_RIGHT {
            Bias::Right
        } else {
            return Err(Error::InvalidAnchorBias(message.bias));
        };
        Ok(
            Anchor {
                offset: #[verifier::truncate] (message.offset as usize),
                bias,
                version: version_from_proto(&message.version),
            },
        )
    }
}

impl Selection {
    /// The selection as a message, without its goal.
    pub fn to_proto(&self) -> (message: proto::Selection)
        ensures
            selection_says(message, self@),
    {
        proto::Selection {
            id: self.id as u64,
            start: Some(self.start.to_proto()),
            end: Some(self.end.to_proto()),
            reversed: self.reversed,
        }
    }

    /// The selection that a message means; an error if an end of it is missing
    /// or malformed.
    pub fn from_proto(message: &proto::Selection) -> (selection: Result<Selection, Error>)
        ensures
            match selection {
                Ok(selection) => selection_meant(*message) == Ok::<_, Error>(selection@),
                Err(error) => selection_meant(*message) == Err::<SelectionModel, Error>(error),
            },
    {
        let start = match &message.start {
            Some(start) => match Anchor::from_proto(start) {
                Ok(start) => start,
                Err(error) => {
                    return Err(error);
                },
            },
            None => {
                return Err(Error::MissingSelectionStart);
            },
        };
        let end = match &message.end {
            Some(end) => match Anchor::from_proto(end) {
                Ok(end) => end,
                Err(error) => {
                    return Err(error);
                },
            },
            None => {
                return Err(Error::MissingSelectionEnd);
            },
        };
        Ok(
            Selection {
                id: #[verifier::truncate] (message.id as usize),
                start,
                end,
                reversed: message.reversed,
                goal: SelectionGoal::NoGoal,
            },
        )
    }
}

/// The selections as messages.
pub fn selections_to_proto(selections: &Vec<Selection>) -> (messages: Vec<proto::Selection>)
    ensures
        selections_say(messages@, selection_models(selections@)),
{
    let mut messages: Vec<proto::Selection> = Vec::new();
    let mut i: usize = 0;
    while i < selections.len()
        invariant
            i <= selections@.len(),
            messages@.len() == i,
            forall|j: int|
                0 <= j < i ==> selection_says(#[trigger] messages@[j], selections@[j]@),
        decreases selections@.len() - i,
    {
        messages.push(selections[i].to_proto());
        i = i + 1;
    }
    messages
}

/// The selections that messages mean.
pub fn selections_from_proto(messages: &Vec<proto::Selection>) -> (selections: Result<
    Vec<Selection>,
    Error,
>)
    ensures
        match selections {
            Ok(selections) => selections_meant(messages@, messages@.len() as int) == Ok::<
                _,
                Error,
            >(selection_models(selections@)),
            Err(error) => selections_meant(messages@, messages@.len() as int) == Err::<
                Seq<SelectionModel>,
                Error,
            >(error),
        },
{
    let mut selections: Vec<Selection> = Vec::new();
    let mut i: usize = 0;
    assert(selection_models(selections@) =~= Seq::<SelectionModel>::empty());
    while i < messages.len()
        invariant
            i <= messages@.len(),
            selections_meant(messages@, i as int) == Ok::<_, Error>(selection_models(selections@)),
        decreases messages@.len() - i,
    {
        match Selection::from_proto(&messages[i]) {
            Ok(selection) => {
                let ghost before = selections@;
                selections.push(selection);
                assert(selection_models(selections@) =~= selection_models(before).push(selection@));
            },
            Err(error) => {
                proof {
                    lemma_malformed(messages@, i + 1, messages@.len() as int, error);
                }
                return Err(error);
            },
        }
        i = i + 1;
    }
    Ok(selections)
}

/// The first error is the one that is reported.
proof fn lemma_malformed(ms: Seq<proto::Selection>, n: int, m: int, error: Error)
    requires
        0 <= n <= m,
        selections_meant(ms, n) == Err::<Seq<SelectionModel>, Error>(error),
    ensures
        selections_meant(ms, m) == Err::<Seq<SelectionModel>, Error>(error),
    decreases m,
{
    if n < m {
        lemma_malformed(ms, n, m - 1, error);
    }
}

fn counts_to_proto(counts: &LocalMap<u32>) -> (messages: Vec<proto::UndoCount>)
    ensures
        counts_say(messages@, counts@),
{
    let keys = counts.keys();
    let mut messages: Vec<proto::UndoCount> = Vec::new();
    let mut i: usize = 0;
    assert(counts_meant(messages@) =~= counts@.restrict(keys@.take(0).to_set()));
    while i < keys.len()
        invariant
            i <= keys@.len(),
            keys@.no_duplicates(),
            forall|id: Local| #[trigger] keys@.contains(id) <==> counts@.contains_key(id),
            messages@.len() == i,
            forall|j: int|
                0 <= j < i ==> counted_edit(#[trigger] messages@[j]) == keys@[j]
                    && messages@[j].replica_id <= u16::MAX,
            counts_meant(messages@) == counts@.restrict(keys@.take(i as int).to_set()),
        decreases keys@.len() - i,
    {
        let id = keys[i];
        let ghost before = messages@;
        proof {
            assert(keys@.contains(keys@[i as int]));
        }
        match counts.get(id) {
            Some(count) => {
                messages.push(
                    proto::UndoCount {
                        replica_id: id.replica_id as u32,
                        local_timestamp: id.value,
                        count: *count,
                    },
                );
            },
            None => {},
        }
        proof {
            assert(messages@.drop_last() =~= before);
            assert(counted_edit(messages@.last()) == id);
            let now = keys@.take(i + 1);
            let past = keys@.take(i as int);
            assert forall|k: Local| now.to_set().contains(k) <==> past.to_set().contains(k) || k
                == id by {
                if now.contains(k) {
                    let j = now.index_of(k);
                    if j < i {
                        assert(past[j] == k);
                    }
                }
                if past.contains(k) {
                    let j = past.index_of(k);
                    assert(now[j] == k);
                }
                assert(now[i as int] == id);
            }
            assert(counts_meant(messages@) =~= counts@.restrict(now.to_set()));
        }
        i = i + 1;
    }
    proof {
        assert(keys@.take(i as int) =~= keys@);
        assert(counts@.restrict(keys@.to_set()) =~= counts@);
    }
    messages
}

fn counts_from_proto(messages: &Vec<proto::UndoCount>) -> (counts: LocalMap<u32>)
    ensures
        counts@ == counts_meant(messages@),
{
    let mut counts: LocalMap<u32> = LocalMap::new();
    let mut i: usize = 0;
    while i < messages.len()
        invariant
            i <= messages@.len(),
            counts@ == counts_meant(messages@.take(i as int)),
        decreases messages@.len() - i,
    {
        let message = messages[i];
        let id = Local { replica_id: replica(message.replica_id), value: message.local_timestamp };
        let _ = counts.insert(id, message.count);
        assert(messages@.take(i + 1).drop_last() =~= messages@.take(i as int));
        i = i + 1;
    }
    assert(messages@.take(i as int) =~= messages@);
    counts
}

impl Operation {
    /// The operation as a message.
    pub fn to_proto(&self) -> (message: proto::Operation)
        ensures
            operation_says(message, self@),
    {
        let variant = match self {
            Operation::Edit(edit) => proto::Variant::Edit(edit.to_proto()),
            Operation::Undo { undo, lamport_timestamp } => proto::Variant::Undo(
                proto::Undo {
                    replica_id: undo.id.replica_id as u32,
                    local_timestamp: undo.id.value,
                    lamport_timestamp: lamport_timestamp.value,
                    ranges: ranges_to_proto(&undo.ranges),
                    version: version_to_proto(&undo.version),
                    counts: counts_to_proto(&undo.counts),
                },
            ),
            Operation::UpdateSelections { set_id, selections, lamport_timestamp } => {
                let set = match selections {
                    Some(selections) => Some(
                        proto::SelectionSet { selections: selections_to_proto(selections) },
                    ),
                    None => None,
                };
                proto::Variant::UpdateSelections(
                    proto::UpdateSelections {
                        replica_id: set_id.replica_id as u32,
                        local_timestamp: set_id.value,
                        lamport_timestamp: lamport_timestamp.value,
                        set,
                    },
                )
            },
            Operation::SetActiveSelections { set_id, lamport_timestamp } => {
                let local_timestamp = match set_id {
                    Some(set_id) => Some(set_id.value),
                    None => None,
                };
                proto::Variant::SetActiveSelections(
                    proto::SetActiveSelections {
                        replica_id: lamport_timestamp.replica_id as u32,
                        local_timestamp,
                        lamport_timestamp: lamport_timestamp.value,
                    },
                )
            },
        };
        proto::Operation { variant: Some(variant) }
    }

    /// The operation that a message means; an error if it is malformed.
    pub fn from_proto(message: proto::Operation) -> (operation: Result<Operation, Error>)
        ensures
            match operation {
                Ok(operation) => operation_meant(message) == Ok::<_, Error>(operation@),
                Err(error) => operation_meant(message) == Err::<
                    crate::operation::OperationModel,
                    Error,
                >(error),
            },
    {
        match message.variant {
            None => Err(Error::MissingOperation),
            Some(proto::Variant::Edit(edit)) => Ok(
                Operation::Edit(EditOperation::from_proto(edit)),
            ),
            Some(proto::Variant::Undo(undo)) => {
                let replica_id = replica(undo.replica_id);
                Ok(
                    Operation::Undo {
                        undo: UndoOperation {
                            id: Local { replica_id, value: undo.local_timestamp },
                            counts: counts_from_proto(&undo.counts),
                            ranges: ranges_from_proto(&undo.ranges),
                            version: version_from_proto(&undo.version),
                        },
                        lamport_timestamp: Lamport { replica_id, value: undo.lamport_timestamp },
                    },
                )
            },
            Some(proto::Variant::UpdateSelections(update)) => {
                let replica_id = replica(update.replica_id);
                let selections = match &update.set {
                    Some(set) => match selections_from_proto(&set.selections) {
                        Ok(selections) => Some(selections),
                        Err(error) => {
                            return Err(error);
                        },
                    },
                    None => None,
                };
                Ok(
                    Operation::UpdateSelections {
                        set_id: Lamport { replica_id, value: update.local_timestamp },
                        selections,
                        lamport_timestamp: Lamport { replica_id, value: update.lamport_timestamp },
                    },
                )
            },
            Some(proto::Variant::SetActiveSelections(active)) => {
                let replica_id = replica(active.replica_id);
                let set_id = match active.local_timestamp {
                    Some(value) => Some(Lamport { replica_id, value }),
                    None => None,
                };
                Ok(
                    Operation::SetActiveSelections {
                        set_id,
                        lamport_timestamp: Lamport { replica_id, value: active.lamport_timestamp },
                    },
                )
            },
        }
    }
}

} // verus!
