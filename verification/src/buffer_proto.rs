//! Buffers to messages and back.

use std::sync::Arc;

use vstd::prelude::*;
use vstd::utf8::*;

use crate::buffer::{Buffer, maybe_file, new_state};
use crate::clock::{Lamport, Local, ReplicaId};
use crate::context::ModelContext;
use crate::convert::{selections_from_proto, selections_to_proto};
use crate::error::Error;
use crate::file::{File, FileModel};
use crate::history::{History, edit_models, new_history};
use crate::operation::{
    EditModel, EditOperation, Operation, OperationModel, SelectionSet, SelectionSetId,
    SelectionSetModel, operation_models,
};
use crate::proto;
use crate::proto::{edit_meant, edit_says, edits_meant, replica_of, selections_say, sets_meant};
use crate::selection_map::SelectionMap;
use crate::snapshot::language_of;
use crate::state::{State, ops_applied, ops_effects, ops_fail, reparse_effects, reparsing};
use crate::syntax::Language;

verus! {

/// The buffer that a message starts from, with nothing done to it.
pub open spec fn received(
    replica_id: ReplicaId,
    message: proto::Buffer,
    file: Option<FileModel>,
    language: Option<Language>,
) -> State {
    new_state(replica_id, new_history(message.content@), file, message.id, language)
}

/// The messages hold the filed edits, each once.
pub open spec fn history_says(messages: Seq<proto::Edit>, ops: Map<Local, EditModel>) -> bool {
    exists|ids: Seq<Local>| #[trigger] lists_edits(ids, messages, ops)
}

/// The messages hold the edits of the given ids, which are all there are.
pub open spec fn lists_edits(
    ids: Seq<Local>,
    messages: Seq<proto::Edit>,
    ops: Map<Local, EditModel>,
) -> bool {
    &&& ids.len() == messages.len()
    &&& ids.no_duplicates()
    &&& forall|id: Local| #[trigger] ids.contains(id) <==> ops.contains_key(id)
    &&& forall|i: int| 0 <= i < messages.len() ==> edit_says(#[trigger] messages[i], ops[ids[i]])
}

/// The set of selections that a message is about.
pub open spec fn set_named(message: proto::SelectionSetSnapshot) -> SelectionSetId {
    Lamport { replica_id: replica_of(message.replica_id), value: message.local_timestamp }
}

/// The messages hold the sets of selections, each once.
pub open spec fn sets_say(
    messages: Seq<proto::SelectionSetSnapshot>,
    sets: Map<SelectionSetId, SelectionSetModel>,
) -> bool {
    &&& forall|i: int|
        0 <= i < messages.len() ==> {
            &&& (#[trigger] messages[i]).replica_id <= u16::MAX
            &&& sets.contains_key(set_named(messages[i]))
            &&& selections_say(messages[i].selections@, sets[set_named(messages[i])].selections)
            &&& messages[i].is_active == sets[set_named(messages[i])].active
        }
    &&& forall|i: int, j: int|
        0 <= i < j < messages.len() ==> set_named(#[trigger] messages[i]) != set_named(
            #[trigger] messages[j],
        )
    &&& forall|id: SelectionSetId| #[trigger]
        sets.contains_key(id) ==> exists|i: int|
            0 <= i < messages.len() && set_named(#[trigger] messages[i]) == id
}

/// Once a message is malformed, so are all that follow.
proof fn lemma_sets_malformed(
    ms: Seq<proto::SelectionSetSnapshot>,
    n: int,
    m: int,
    error: Error,
)
    requires
        0 <= n <= m,
        sets_meant(ms, n) == Err::<Map<Lamport, SelectionSetModel>, Error>(error),
    ensures
        sets_meant(ms, m) == Err::<Map<Lamport, SelectionSetModel>, Error>(error),
    decreases m,
{
    if n < m {
        lemma_sets_malformed(ms, n, m - 1, error);
    }
}

fn sets_from_proto(messages: &Vec<proto::SelectionSetSnapshot>) -> (sets: Result<
    SelectionMap,
    Error,
>)
    ensures
        match sets {
            Ok(sets) => sets_meant(messages@, messages@.len() as int) == Ok::<_, Error>(sets@),
            Err(error) => sets_meant(messages@, messages@.len() as int) == Err::<
                Map<Lamport, SelectionSetModel>,
                Error,
            >(error),
        },
{
    let mut sets = SelectionMap::new();
    let mut i: usize = 0;
    while i < messages.len()
        invariant
            i <= messages@.len(),
            sets_meant(messages@, i as int) == Ok::<_, Error>(sets@),
        decreases messages@.len() - i,
    {
        let message = &messages[i];
        match selections_from_proto(&message.selections) {
            Ok(selections) => {
                let id = Lamport {
                    replica_id: #[verifier::truncate] (message.replica_id as u16),
                    value: message.local_timestamp,
                };
                sets.insert(id, SelectionSet { selections, active: message.is_active });
            },
            Err(error) => {
                proof {
                    lemma_sets_malformed(messages@, i + 1, messages@.len() as int, error);
                }
                return Err(error);
            },
        }
        i = i + 1;
    }
    Ok(sets)
}

fn edits_from_proto(messages: Vec<proto::Edit>) -> (ops: Vec<Operation>)
    ensures
        operation_models(ops@) == edits_meant(messages@),
{
    let mut rest = messages;
    let mut ops: Vec<Operation> = Vec::new();
    let ghost mut n: int = 0;
    while rest.len() > 0
        invariant
            0 <= n <= messages@.len(),
            rest@ =~= messages@.skip(n),
            ops@.len() == n,
            forall|j: int|
                0 <= j < n ==> (#[trigger] ops@[j])@ == OperationModel::Edit(
                    edit_meant(messages@[j]),
                ),
        decreases rest@.len(),
    {
        let message = rest.remove(0);
        ops.push(Operation::Edit(EditOperation::from_proto(message)));
        proof {
            n = n + 1;
        }
    }
    assert(operation_models(ops@) =~= edits_meant(messages@)) by {
        assert(messages@.skip(n).len() == 0);
    }
    ops
}

impl Buffer {
    /// The buffer that a message means: its first text, the edits made to it
    /// since, and the selections in it. An error if an edit does not fit or a
    /// selection is malformed.
    pub fn from_proto(
        replica_id: ReplicaId,
        message: proto::Buffer,
        file: Option<File>,
        language: Option<Arc<Language>>,
        cx: &mut ModelContext,
    ) -> (buffer: Result<Buffer, Error>)
        requires
            encode_utf8(message.content@).len() < usize::MAX,
        ensures
            final(cx).same_place(old(cx)),
            ({
                let start = received(replica_id, message, maybe_file(file), language_of(language));
                let ops = edits_meant(message.history@);
                let sets = sets_meant(message.selections@, message.selections@.len() as int);
                &&& final(cx)@ == old(cx)@ + (reparse_effects(start) + ops_effects(
                    reparsing(start),
                    ops,
                ))
                &&& match buffer {
                    Ok(buffer) => {
                        &&& buffer.wf()
                        &&& !ops_fail(reparsing(start), ops)
                        &&& sets is Ok
                        &&& buffer@ == (State {
                            selections: sets->Ok_0,
                            ..ops_applied(reparsing(start), ops)
                        })
                    },
                    Err(error) => if ops_fail(reparsing(start), ops) {
                        error == Error::InvalidOperation
                    } else {
                        sets == Err::<Map<Lamport, SelectionSetModel>, Error>(error)
                    },
                }
            }),
    {
        let ghost start = received(replica_id, message, maybe_file(file), language_of(language));
        let ghost edits = edits_meant(message.history@);
        let mut buffer = Buffer::build(
            replica_id,
            History::new(message.content),
            file,
            message.id,
            language,
            cx,
        );
        let ops = edits_from_proto(message.history);
        let applied = buffer.apply_ops(ops, cx);
        proof {
            let a = reparse_effects(start);
            let b = ops_effects(reparsing(start), edits);
            assert(old(cx)@ + a + b =~= old(cx)@ + (a + b));
        }
        match applied {
            Ok(()) => {},
            Err(error) => {
                return Err(error);
            },
        }
        match sets_from_proto(&message.selections) {
            Ok(sets) => {
                let ghost doc = buffer.doc();
                buffer.selections = sets;
                assert(buffer.doc() == doc);
                Ok(buffer)
            },
            Err(error) => Err(error),
        }
    }

    /// The buffer as a message.
    pub fn to_proto(&self, cx: &ModelContext) -> (message: proto::Buffer)
        ensures
            message.id == cx.model_id as u64,
            message.content@ == self@.history.base_text,
            history_says(message.history@, self@.history.ops),
            sets_say(message.selections@, self@.selections),
    {
        proto::Buffer {
            id: cx.model_id() as u64,
            content: self.history.base_text.clone(),
            history: self.history_to_proto(),
            selections: self.selections_to_proto(),
        }
    }

    fn history_to_proto(&self) -> (messages: Vec<proto::Edit>)
        ensures
            history_says(messages@, self@.history.ops),
    {
        let keys = self.history.ops.keys();
        let ghost ops = self@.history.ops;
        let mut messages: Vec<proto::Edit> = Vec::new();
        let mut i: usize = 0;
        while i < keys.len()
            invariant
                i <= keys@.len(),
                ops == edit_models(self.history.ops@),
                forall|id: Local| #[trigger]
                    keys@.contains(id) <==> self.history.ops@.contains_key(id),
                messages@.len() == i,
                forall|j: int| 0 <= j < i ==> edit_says(#[trigger] messages@[j], ops[keys@[j]]),
            decreases keys@.len() - i,
        {
            assert(keys@.contains(keys@[i as int]));
            match self.history.ops.get(keys[i]) {
                Some(edit) => {
                    messages.push(edit.to_proto());
                },
                None => {},
            }
            i = i + 1;
        }
        assert(lists_edits(keys@, messages@, ops));
        messages
    }

    fn selections_to_proto(&self) -> (messages: Vec<proto::SelectionSetSnapshot>)
        ensures
            sets_say(messages@, self@.selections),
    {
        let sets = self.selection_sets();
        let mut messages: Vec<proto::SelectionSetSnapshot> = Vec::new();
        let mut i: usize = 0;
        while i < sets.len()
            invariant
                i <= sets@.len(),
                messages@.len() == i,
                forall|j: int|
                    0 <= j < i ==> {
                        &&& (#[trigger] messages@[j]).replica_id == sets@[j].0.replica_id
                        &&& messages@[j].local_timestamp == sets@[j].0.value
                        &&& selections_say(messages@[j].selections@, sets@[j].1@.selections)
                        &&& messages@[j].is_active == sets@[j].1@.active
                    },
            decreases sets@.len() - i,
        {
            let (id, set) = (sets[i].0, sets[i].1);
            messages.push(
                proto::SelectionSetSnapshot {
                    replica_id: id.replica_id as u32,
                    local_timestamp: id.value,
                    selections: selections_to_proto(&set.selections),
                    is_active: set.active,
                },
            );
            i = i + 1;
        }
        proof {
            assert forall|j: int| 0 <= j < messages@.len() implies set_named(
                #[trigger] messages@[j],
            ) == sets@[j].0 by {}
            assert forall|a: int, b: int| 0 <= a < b < messages@.len() implies set_named(
                #[trigger] messages@[a],
            ) != set_named(#[trigger] messages@[b]) by {
                assert(sets@[a].0 != sets@[b].0);
            }
            assert forall|id: SelectionSetId| #[trigger]
                self@.selections.contains_key(id) implies exists|k: int|
                0 <= k < messages@.len() && set_named(#[trigger] messages@[k]) == id by {
                let k = choose|k: int| 0 <= k < sets@.len() && (#[trigger] sets@[k]).0 == id;
                assert(set_named(messages@[k]) == id);
            }
        }
        messages
    }
}

/// The sets of selections that a replica reads out of messages are those that
/// another has written into them, where no selection has a goal.
pub proof fn law_selections_round_trip(
    messages: Seq<proto::SelectionSetSnapshot>,
    sets: Map<SelectionSetId, SelectionSetModel>,
)
    requires
        sets_say(messages, sets),
        forall|id: SelectionSetId| #[trigger]
            sets.contains_key(id) ==> proto::no_goals(sets[id].selections),
    ensures
        sets_meant(messages, messages.len() as int) == Ok::<_, Error>(sets),
{
    let n = messages.len() as int;
    lemma_sets_meant(messages, sets, n);
    let named = Map::new(
        |id: SelectionSetId| exists|i: int| 0 <= i < n && set_named(#[trigger] messages[i]) == id,
        |id: SelectionSetId| sets[id],
    );
    assert(named =~= sets) by {
        assert forall|id: SelectionSetId| named.contains_key(id) implies #[trigger]
            sets.contains_key(id) by {
            let i = choose|i: int| 0 <= i < n && set_named(#[trigger] messages[i]) == id;
            assert(sets.contains_key(set_named(messages[i])));
        }
    }
}

proof fn lemma_sets_meant(
    messages: Seq<proto::SelectionSetSnapshot>,
    sets: Map<SelectionSetId, SelectionSetModel>,
    n: int,
)
    requires
        sets_say(messages, sets),
        forall|id: SelectionSetId| #[trigger]
            sets.contains_key(id) ==> proto::no_goals(sets[id].selections),
        0 <= n <= messages.len(),
    ensures
        sets_meant(messages, n) == Ok::<_, Error>(
            Map::new(
                |id: SelectionSetId|
                    exists|i: int| 0 <= i < n && set_named(#[trigger] messages[i]) == id,
                |id: SelectionSetId| sets[id],
            ),
        ),
    decreases n,
{
    let named = Map::new(
        |id: SelectionSetId| exists|i: int| 0 <= i < n && set_named(#[trigger] messages[i]) == id,
        |id: SelectionSetId| sets[id],
    );
    if n == 0 {
        assert(named =~= Map::empty());
    } else {
        lemma_sets_meant(messages, sets, n - 1);
        let before = Map::new(
            |id: SelectionSetId|
                exists|i: int| 0 <= i < n - 1 && set_named(#[trigger] messages[i]) == id,
            |id: SelectionSetId| sets[id],
        );
        let m = messages[n - 1];
        let id = set_named(m);
        assert(sets.contains_key(id));
        proto::lemma_selections(m.selections@, sets[id].selections, m.selections@.len() as int);
        assert(sets[id].selections.take(m.selections@.len() as int) =~= sets[id].selections);
        assert(sets[id] == (SelectionSetModel {
            selections: sets[id].selections,
            active: m.is_active,
        }));
        assert forall|key: SelectionSetId| #[trigger] named.contains_key(key)
            <==> before.insert(id, sets[id]).contains_key(key) by {
            if named.contains_key(key) {
                let i = choose|i: int| 0 <= i < n && set_named(#[trigger] messages[i]) == key;
                if i < n - 1 {
                    assert(set_named(messages[i]) == key);
                }
            }
            if before.contains_key(key) {
                let i = choose|i: int| 0 <= i < n - 1 && set_named(#[trigger] messages[i]) == key;
                assert(set_named(messages[i]) == key);
            }
        }
        assert(named =~= before.insert(id, sets[id]));
    }
}

} // verus!
