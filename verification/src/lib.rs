//! A replicated text buffer.

pub mod acceptance_laws;
pub mod anchor_laws;
pub mod batch_laws;
pub mod buffer;
pub mod buffer_diff;
pub mod buffer_edit;
pub mod buffer_file;
pub mod buffer_proto;
pub mod buffer_remote;
pub mod buffer_selections;
pub mod buffer_syntax;
pub mod buffer_text;
pub mod builder;
pub mod change_laws;
pub mod clock;
pub mod clock_laws;
pub mod content;
pub mod context;
pub mod converge;
pub mod convert;
pub mod delivery_laws;
pub mod document;
pub mod edit;
pub mod edit_laws;
pub mod edits;
pub mod error;
pub mod event_laws;
pub mod file;
pub mod fit_laws;
pub mod fragment;
pub mod group_laws;
pub mod highlight;
pub mod highlight_laws;
pub mod history;
pub mod history_laws;
pub mod indent;
pub mod indent_laws;
pub mod landing_laws;
pub mod local;
pub mod local_map;
pub mod merge_laws;
pub mod message_laws;
pub mod operation;
pub mod operation_queue;
pub mod point;
pub mod proto;
pub mod proto_laws;
pub mod queue_laws;
pub mod random;
pub mod range_laws;
pub mod reach;
pub mod reach_laws;
pub mod remote;
pub mod replica_laws;
pub mod replicas;
pub mod rope;
pub mod selection_laws;
pub mod selection_map;
pub mod shared;
pub mod snapshot;
pub mod splice;
pub mod state;
pub mod state_laws;
pub mod syntax;
pub mod syntax_laws;
pub mod text_laws;
pub mod time_laws;
pub mod transaction_laws;
pub mod travel_laws;
pub mod undo;
pub mod undo_laws;
pub mod undo_map;
pub mod weave;

pub use crate::buffer::Buffer;
pub use crate::clock::{Global, Lamport, Local, ReplicaId};
pub use crate::content::{
    AnchorMap, AnchorRangeMap, AnchorRangeSet, AnchorSet, Content, ToOffset, ToPoint,
};
pub use crate::context::{Effect, Event, ModelContext};
pub use crate::edit::Edit;
pub use crate::error::Error;
pub use crate::file::File;
pub use crate::fragment::FragmentSummary;
pub use crate::highlight::HighlightedChunks;
pub use crate::history::History;
pub use crate::operation::{
    Anchor, EditOperation, Operation, Selection, SelectionGoal, SelectionSet, SelectionSetId,
    UndoOperation,
};
pub use crate::point::Point;
pub use crate::rope::{Bias, Rope, TextSummary};
pub use crate::snapshot::Snapshot;
pub use crate::syntax::{HighlightId, HighlightMap, Language};
