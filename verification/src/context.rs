//! What a buffer asks of the program around it.

use std::sync::Arc;

use tree_sitter::Tree;
use vstd::prelude::*;

use crate::clock::{Global, Version};
use crate::indent::{AutoindentRequest, AutoindentTask};
use crate::operation::{Operation, OperationModel};
use crate::rope::Rope;
use crate::snapshot::SnapshotModel;
use crate::syntax::Language;

verus! {

/// What has happened to a buffer.
#[derive(Clone, Copy, Debug, PartialEq, Eq, Structural)]
pub enum Event {
    Edited,
    Dirtied,
    Saved,
    FileHandleChanged,
    Reloaded,
    Reparsed,
    Closed,
}

/// A text to be parsed.
pub struct ParseTask {
    pub text: Rope,
    pub old_tree: Option<Tree>,
    pub version: Global,
    pub language: Arc<Language>,
}

/// Something that a buffer asks for.
pub enum Effect {
    /// Tell whoever listens that something has happened.
    Emit(Event),
    /// Tell whoever shows the buffer that it has changed.
    Notify,
    /// Tell the other replicas of an operation.
    Send(Operation),
    /// Parse a text, and hand the tree to `Buffer::finish_parsing`.
    Parse(ParseTask),
    /// Run the task, and hand the columns to `Buffer::finish_autoindent`.
    Autoindent(AutoindentTask),
    /// Hand the text to `Buffer::reload`.
    Reload { new_text: String, mtime: u64 },
    /// Tell the file that the buffer is gone.
    Removed,
}

/// What an effect means.
#[allow(inconsistent_fields)]
pub ghost enum EffectModel {
    Emit(Event),
    Notify,
    Send(OperationModel),
    Parse { text: Seq<u8>, old_tree: Option<Tree>, version: Version, language: Language },
    Autoindent { snapshot: SnapshotModel, requests: Seq<Arc<AutoindentRequest>> },
    Reload { new_text: Seq<char>, mtime: u64 },
    Removed,
}

impl View for Effect {
    type V = EffectModel;

    open spec fn view(&self) -> EffectModel {
        match self {
            Effect::Emit(event) => EffectModel::Emit(*event),
            Effect::Notify => EffectModel::Notify,
            Effect::Send(operation) => EffectModel::Send(operation@),
            Effect::Parse(task) => EffectModel::Parse {
                text: task.text@,
                old_tree: task.old_tree,
                version: task.version@,
                language: *task.language,
            },
            Effect::Autoindent(task) => EffectModel::Autoindent {
                snapshot: task.snapshot@,
                requests: task.requests@,
            },
            Effect::Reload { new_text, mtime } => EffectModel::Reload {
                new_text: new_text@,
                mtime: *mtime,
            },
            Effect::Removed => EffectModel::Removed,
        }
    }
}

/// The surroundings of a buffer: its number, the time, and what it has asked
/// for so far.
pub struct ModelContext {
    pub model_id: usize,
    /// The time, in nanoseconds.
    pub now: u64,
    pub effects: Vec<Effect>,
}

impl View for ModelContext {
    type V = Seq<EffectModel>;

    open spec fn view(&self) -> Seq<EffectModel> {
        self.effects@.map_values(|e: Effect| e@)
    }
}

impl ModelContext {
    /// The same number, and the same time.
    pub open spec fn same_place(&self, other: &ModelContext) -> bool {
        &&& self.model_id == other.model_id
        &&& self.now == other.now
    }

    pub fn new(model_id: usize, now: u64) -> (cx: ModelContext)
        ensures
            cx.model_id == model_id,
            cx.now == now,
            cx@ == Seq::<EffectModel>::empty(),
    {
        let cx = ModelContext { model_id, now, effects: Vec::new() };
        assert(cx@ =~= Seq::<EffectModel>::empty());
        cx
    }

    pub fn model_id(&self) -> (id: usize)
        ensures
            id == self.model_id,
    {
        self.model_id
    }

    /// Asks for something.
    pub fn push(&mut self, effect: Effect)
        ensures
            final(self)@ == old(self)@.push(effect@),
            final(self).same_place(old(self)),
    {
        let ghost model = effect@;
        self.effects.push(effect);
        assert(self@ =~= old(self)@.push(model));
    }

    /// Reports that something has happened.
    pub fn emit(&mut self, event: Event)
        ensures
            final(self)@ == old(self)@.push(EffectModel::Emit(event)),
            final(self).same_place(old(self)),
    {
        self.push(Effect::Emit(event));
    }

    /// Reports that the buffer has changed.
    pub fn notify(&mut self)
        ensures
            final(self)@ == old(self)@.push(EffectModel::Notify),
            final(self).same_place(old(self)),
    {
        self.push(Effect::Notify);
    }
}

} // verus!
