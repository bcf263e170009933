//! The buffer.

use std::sync::Arc;

use tree_sitter::Tree;
use vstd::prelude::*;
use vstd::utf8::*;

use crate::builder::{doc_of, pieces_of};
use crate::clock::{Global, Lamport, Local, ReplicaId, Version};
use crate::content::Content;
use crate::context::{Effect, EffectModel, ModelContext, ParseTask};
use crate::document::{
    Cell, Doc, all_seen, law_stored_texts, lemma_cells_with, lemma_with_wf, run_cells, visible_rank,
    visible_text,
};
use crate::edit_laws::lemma_visible_part;
use crate::edits::{Comparison, Edits, edits_of, lemma_old_text, lemma_span_hidden, lemma_spans};
use crate::file::{File, FileModel};
use crate::fragment::{Fragment, InsertionTimestamp};
use crate::history::{History, HistoryModel};
use crate::indent::AutoindentRequest;
use crate::operation_queue::OperationQueue;
use crate::rope::Rope;
use crate::selection_map::SelectionMap;
use crate::snapshot::{Snapshot, clone_fragments, clone_language, language_of};
use crate::state::{
    State, current_tree, interpolated, reparse_effects, reparsing, snapshot_of, tree_after,
};
use crate::syntax::{Language, SyntaxTree, TreeEdit, clone_tree, edit_tree};
use crate::undo_map::UndoMap;
use crate::weave::inserted_cells;

verus! {

/// A text that several replicas edit at the same time.
pub struct Buffer {
    pub fragments: Vec<Fragment>,
    pub visible_text: Rope,
    pub deleted_text: Rope,
    pub version: Global,
    pub saved_version: Global,
    /// When the file was last modified, as far as it has been saved or read.
    pub saved_mtime: u64,
    pub last_edit: Local,
    pub undo_map: UndoMap,
    pub history: History,
    pub file: Option<File>,
    pub language: Option<Arc<Language>>,
    pub autoindent_requests: Vec<Arc<AutoindentRequest>>,
    /// Whether lines are being indented in the background.
    pub pending_autoindent: bool,
    pub syntax_tree: Option<SyntaxTree>,
    pub parsing_in_background: bool,
    /// How long a change may wait for the text to be parsed, in nanoseconds.
    pub sync_parse_timeout: u64,
    pub parse_count: usize,
    pub selections: SelectionMap,
    pub deferred_ops: OperationQueue,
    pub deferred_replicas: Vec<ReplicaId>,
    pub replica_id: ReplicaId,
    pub remote_id: u64,
    pub local_clock: Local,
    pub lamport_clock: Lamport,
}

/// What a syntax tree that may be absent means.
pub open spec fn maybe_syntax(tree: Option<SyntaxTree>) -> Option<(Tree, Version)> {
    match tree {
        Some(tree) => Some((tree.tree, tree.version@)),
        None => None,
    }
}

/// What a file that may be absent means.
pub open spec fn maybe_file(file: Option<File>) -> Option<FileModel> {
    match file {
        Some(file) => Some(file@),
        None => None,
    }
}

impl View for Buffer {
    type V = State;

    open spec fn view(&self) -> State {
        State {
            cells: self.doc().cells(),
            log: self.undo_map@,
            version: self.version@,
            saved_version: self.saved_version@,
            saved_mtime: self.saved_mtime,
            last_edit: self.last_edit,
            history: self.history@,
            file: maybe_file(self.file),
            language: language_of(self.language),
            tree: maybe_syntax(self.syntax_tree),
            parsing: self.parsing_in_background,
            sync_parse_timeout: self.sync_parse_timeout,
            parse_count: self.parse_count as int,
            requests: self.autoindent_requests@,
            pending_autoindent: self.pending_autoindent,
            selections: self.selections@,
            deferred_ops: self.deferred_ops@,
            deferred_replicas: self.deferred_replicas@.to_set(),
            replica_id: self.replica_id,
            remote_id: self.remote_id,
            local_clock: self.local_clock,
            lamport_clock: self.lamport_clock,
        }
    }
}

/// The timestamp of the text that a buffer starts with.
pub open spec fn base_timestamp() -> InsertionTimestamp {
    InsertionTimestamp { replica_id: 0, local: 0, lamport: 0 }
}

/// A buffer to which nothing has been done.
pub open spec fn new_state(
    replica_id: ReplicaId,
    history: HistoryModel,
    file: Option<FileModel>,
    remote_id: u64,
    language: Option<Language>,
) -> State {
    State {
        cells: inserted_cells(base_timestamp(), encode_utf8(history.base_text)),
        log: Map::empty(),
        version: Map::empty(),
        saved_version: Map::empty(),
        saved_mtime: match file {
            Some(file) => file.mtime,
            None => 0,
        },
        last_edit: Local { replica_id: 0, value: 0 },
        history,
        file,
        language,
        tree: None,
        parsing: false,
        sync_parse_timeout: 1_000_000,
        parse_count: 0,
        requests: Seq::empty(),
        pending_autoindent: false,
        selections: Map::empty(),
        deferred_ops: Seq::empty(),
        deferred_replicas: Set::empty(),
        replica_id,
        remote_id,
        local_clock: Local { replica_id, value: 1 },
        lamport_clock: Lamport { replica_id, value: 1 },
    }
}

/// A buffer that goes on by itself from here: nothing that the first one has
/// asked for comes back to it.
pub open spec fn copied(s: State) -> State {
    State { parsing: false, requests: Seq::empty(), pending_autoindent: false, ..s }
}

impl Clone for Buffer {
    fn clone(&self) -> (copy: Self)
        ensures
            copy@ == copied(self@),
            self.wf() ==> copy.wf(),
    {
        let file = match &self.file {
            Some(file) => Some(file.clone()),
            None => None,
        };
        let syntax_tree = match &self.syntax_tree {
            Some(tree) => Some(tree.clone()),
            None => None,
        };
        let deferred_replicas = self.deferred_replicas.clone();
        let copy = Buffer {
            fragments: clone_fragments(&self.fragments),
            visible_text: self.visible_text.clone(),
            deleted_text: self.deleted_text.clone(),
            version: self.version.clone(),
            saved_version: self.saved_version.clone(),
            saved_mtime: self.saved_mtime,
            last_edit: self.last_edit,
            undo_map: self.undo_map.clone(),
            history: self.history.clone(),
            file,
            language: clone_language(&self.language),
            autoindent_requests: Vec::new(),
            pending_autoindent: false,
            syntax_tree,
            parsing_in_background: false,
            sync_parse_timeout: self.sync_parse_timeout,
            parse_count: self.parse_count,
            selections: self.selections.clone(),
            deferred_ops: self.deferred_ops.clone(),
            deferred_replicas,
            replica_id: self.replica_id,
            remote_id: self.remote_id,
            local_clock: self.local_clock,
            lamport_clock: self.lamport_clock,
        };
        proof {
            assert(copy.deferred_replicas@ =~= self.deferred_replicas@);
            assert(copy.autoindent_requests@ =~= Seq::empty());
            assert(copy.doc() == self.doc());
        }
        copy
    }
}

impl Buffer {
    /// The document as it is stored.
    pub open spec fn doc(&self) -> Doc {
        doc_of(self.fragments@, self.visible_text@, self.deleted_text@)
    }

    /// The buffer is in order, and the version has seen all of the text.
    pub open spec fn wf(&self) -> bool {
        &&& self.in_order()
        &&& all_seen(self.doc().cells(), self.version@)
    }

    /// The buffer is in order, but for what the version has seen.
    pub open spec fn in_order(&self) -> bool {
        &&& self.doc().wf()
        &&& self.history@.wf()
        &&& self.local_clock.replica_id == self.replica_id
        &&& self.lamport_clock.replica_id == self.replica_id
        &&& forall|i: int|
            0 <= i < self.autoindent_requests@.len() ==> (
            #[trigger] self.autoindent_requests@[i]).wf()
    }

    /// The visible text is what is stored as such.
    pub proof fn lemma_text(&self)
        requires
            self.wf(),
        ensures
            self@.text() == self.visible_text@,
            self@.text().len() < usize::MAX,
            self@.cells.len() < usize::MAX,
            valid_utf8(self@.text()),
            visible_rank(self@.cells, self@.cells.len() as int) == self@.text().len(),
    {
        law_stored_texts(self.doc());
        crate::document::lemma_cells_len(self.doc(), self.doc().n());
        lemma_visible_part(self.doc().cells(), 0, self.doc().cells().len() as int);
    }

    /// A buffer that holds a text, and belongs to no file.
    pub fn new(replica_id: ReplicaId, base_text: String, cx: &mut ModelContext) -> (buffer: Buffer)
        requires
            encode_utf8(base_text@).len() < usize::MAX,
        ensures
            buffer.wf(),
            buffer@ == reparsing(
                new_state(
                    replica_id,
                    crate::history::new_history(base_text@),
                    None,
                    old(cx).model_id as u64,
                    None,
                ),
            ),
            final(cx)@ == old(cx)@,
            final(cx).same_place(old(cx)),
    {
        let remote_id = cx.model_id() as u64;
        let buffer = Buffer::build(
            replica_id,
            History::new(base_text),
            None,
            remote_id,
            None,
            cx,
        );
        proof {
            assert(old(cx)@ + Seq::<EffectModel>::empty() =~= old(cx)@);
        }
        buffer
    }

    /// A buffer with a history, a file and a language.
    pub fn from_history(
        replica_id: ReplicaId,
        history: History,
        file: Option<File>,
        language: Option<Arc<Language>>,
        cx: &mut ModelContext,
    ) -> (buffer: Buffer)
        requires
            history@.wf(),
            encode_utf8(history@.base_text).len() < usize::MAX,
        ensures
            buffer.wf(),
            ({
                let start = new_state(
                    replica_id,
                    history@,
                    maybe_file(file),
                    old(cx).model_id as u64,
                    language_of(language),
                );
                &&& buffer@ == reparsing(start)
                &&& final(cx)@ == old(cx)@ + reparse_effects(start)
            }),
            final(cx).same_place(old(cx)),
    {
        let remote_id = cx.model_id() as u64;
        Buffer::build(replica_id, history, file, remote_id, language, cx)
    }

    /// A buffer that holds the text its history starts from.
    pub fn build(
        replica_id: ReplicaId,
        history: History,
        file: Option<File>,
        remote_id: u64,
        language: Option<Arc<Language>>,
        cx: &mut ModelContext,
    ) -> (buffer: Buffer)
        requires
            history@.wf(),
            encode_utf8(history@.base_text).len() < usize::MAX,
        ensures
            buffer.wf(),
            ({
                let start = new_state(
                    replica_id,
                    history@,
                    maybe_file(file),
                    remote_id,
                    language_of(language),
                );
                &&& buffer@ == reparsing(start)
                &&& final(cx)@ == old(cx)@ + reparse_effects(start)
            }),
            final(cx).same_place(old(cx)),
    {
        let saved_mtime: u64 = match &file {
            Some(file) => file.mtime(),
            None => 0,
        };
        let ghost text = encode_utf8(history@.base_text);
        let ghost start = new_state(
            replica_id,
            history@,
            maybe_file(file),
            remote_id,
            language_of(language),
        );
        let visible_text = Rope::from_text(history.base_text.as_str());
        let mut fragments: Vec<Fragment> = Vec::new();
        let ghost empty = Doc {
            pieces: Seq::empty(),
            visible: Seq::empty(),
            deleted: Seq::empty(),
        };
        let timestamp = InsertionTimestamp { replica_id: 0, local: 0, lamport: 0 };
        proof {
            assert(empty.wf());
            assert(empty.cells() =~= Seq::<Cell>::empty());
            encode_utf8_valid_utf8(history@.base_text);
        }
        if visible_text.len() > 0 {
            let fragment = Fragment::inserted(timestamp, visible_text.len());
            let ghost piece = fragment@;
            fragments.push(fragment);
            proof {
                assert(pieces_of(fragments@) =~= empty.pieces.push(piece));
                lemma_with_wf(empty, piece, text);
                lemma_cells_with(empty, piece, text);
                assert(empty.visible + text =~= text);
                assert(doc_of(fragments@, visible_text@, Seq::empty()) =~= empty.with(piece, text));
                assert(empty.cells() + run_cells(piece, text) =~= run_cells(piece, text));
            }
        } else {
            proof {
                assert(pieces_of(fragments@) =~= Seq::empty());
                assert(text =~= Seq::empty());
                assert(doc_of(fragments@, visible_text@, Seq::empty()) =~= empty);
                assert(inserted_cells(timestamp, text) =~= Seq::<Cell>::empty());
            }
        }
        let mut buffer = Buffer {
            fragments,
            visible_text,
            deleted_text: Rope::new(),
            version: Global::new(),
            saved_version: Global::new(),
            saved_mtime,
            last_edit: Local { replica_id: 0, value: 0 },
            undo_map: UndoMap::new(),
            history,
            file,
            language,
            autoindent_requests: Vec::new(),
            pending_autoindent: false,
            syntax_tree: None,
            parsing_in_background: false,
            sync_parse_timeout: 1_000_000,
            parse_count: 0,
            selections: SelectionMap::new(),
            deferred_ops: OperationQueue::new(),
            deferred_replicas: Vec::new(),
            replica_id,
            remote_id,
            local_clock: Local::new(replica_id),
            lamport_clock: Lamport::new(replica_id),
        };
        proof {
            assert(buffer.deferred_replicas@.to_set() =~= Set::empty());
            assert(buffer.autoindent_requests@ =~= Seq::empty());
            assert(buffer@ =~= start);
        }
        buffer.reparse(cx);
        buffer
    }

    pub fn replica_id(&self) -> (id: ReplicaId)
        ensures
            id == self@.local_clock.replica_id,
    {
        self.local_clock.replica_id
    }

    /// The buffer as it is now. The syntax tree is brought up to date.
    pub fn snapshot(&mut self) -> (snapshot: Snapshot)
        requires
            old(self).wf(),
        ensures
            final(self).wf(),
            final(self)@ == interpolated(old(self)@),
            snapshot@ == snapshot_of(old(self)@),
            snapshot.wf(),
    {
        let tree = self.syntax_tree();
        proof {
            self.lemma_text();
        }
        Snapshot {
            visible_text: self.visible_text.clone(),
            fragments: clone_fragments(&self.fragments),
            version: self.version.clone(),
            tree,
            is_parsing: self.parsing_in_background,
            language: clone_language(&self.language),
            deleted_text: Ghost(self.deleted_text@),
        }
    }

    /// The text, and the fragments it is made of.
    pub fn content(&self) -> (content: Content<'_>)
        ensures
            content.visible_text@ == self.visible_text@,
            content.doc() == self.doc(),
            content.version@ == self.version@,
    {
        Content {
            visible_text: &self.visible_text,
            fragments: &self.fragments,
            version: &self.version,
            deleted_text: Ghost(self.deleted_text@),
        }
    }

    /// The changes since an earlier version.
    pub fn edits_since(&self, since: Global) -> (edits: Edits<'_>)
        requires
            self.wf(),
        ensures
            edits.wf(),
            edits.comparison() == (Comparison {
                cells: self@.cells,
                since: since@,
                log: self@.log,
            }),
            edits.count() == 0,
            edits.all() == self@.changes_since(since@),
    {
        Edits::new(
            &self.fragments,
            &self.visible_text,
            &self.deleted_text,
            &self.undo_map,
            &self.version,
            since,
        )
    }

    /// Whether anything has changed since an earlier version.
    pub fn has_changed_since(&self, since: Global) -> (b: bool)
        requires
            self.wf(),
        ensures
            b == (self@.changes_since(since@).len() > 0),
    {
        let mut edits = self.edits_since(since);
        edits.next().is_some()
    }

    /// The syntax tree, brought up to date. The tree is kept as it is then.
    pub fn syntax_tree(&mut self) -> (tree: Option<Tree>)
        requires
            old(self).wf(),
        ensures
            final(self).wf(),
            final(self)@ == interpolated(old(self)@),
            tree == current_tree(old(self)@),
    {
        let ghost s = self@;
        match &self.syntax_tree {
            Some(syntax_tree) => {
                let mut current = syntax_tree.clone();
                self.interpolate_tree(&mut current);
                let tree = clone_tree(&current.tree);
                self.syntax_tree = Some(current);
                proof {
                    assert(self.doc() == old(self).doc());
                    assert(self@ =~= interpolated(s));
                }
                Some(tree)
            },
            None => {
                assert(self@ =~= interpolated(s));
                None
            },
        }
    }

    /// Brings a syntax tree up to date: tells it of every change of the text
    /// since the version it was made for.
    pub fn interpolate_tree(&self, tree: &mut SyntaxTree)
        requires
            self.wf(),
        ensures
            final(tree).version@ == self@.version,
            ({
                let w = Comparison {
                    cells: self@.cells,
                    since: old(tree).version@,
                    log: self@.log,
                };
                let spans = edits_of(w, self@.version);
                final(tree).tree == tree_after(
                    old(tree).tree,
                    spans,
                    self@.text(),
                    w.old_text(w.len()),
                    spans.len() as int,
                )
            }),
    {
        let mut edits = self.edits_since(tree.version.clone());
        let ghost w = edits.comparison();
        let ghost spans = edits.all();
        let ghost text = self@.text();
        let ghost old_text = edits.old_bytes();
        let ghost start = tree.tree;
        proof {
            self.lemma_text();
        }
        loop
            invariant
                self.wf(),
                edits.wf(),
                edits.comparison() == w,
                w == (Comparison {
                    cells: self@.cells,
                    since: old(tree).version@,
                    log: self@.log,
                }),
                edits.all() == spans,
                spans == edits_of(w, self@.version),
                text == self@.text(),
                text == self.visible_text@,
                old_text == w.old_text(w.len()),
                0 <= edits.count() <= spans.len(),
                tree.version@ == old(tree).version@,
                tree.tree == tree_after(start, spans, text, old_text, edits.count()),
                start == old(tree).tree,
            ensures
                tree.tree == tree_after(start, spans, text, old_text, spans.len() as int),
            decreases spans.len() - edits.count(),
        {
            let ghost k = edits.count();
            match edits.next() {
                Some(edit) => {
                    let ghost span = spans[k];
                    proof {
                        lemma_tree_edit(self, w, k);
                    }
                    let start_byte = edit.new_bytes.start;
                    let start_position = self.visible_text.to_point(start_byte);
                    let deleted = edit.deleted_bytes();
                    edit_tree(
                        &mut tree.tree,
                        TreeEdit {
                            start_byte,
                            old_end_byte: start_byte + deleted,
                            new_end_byte: edit.new_bytes.end,
                            start_position,
                            old_end_position: start_position.plus(edit.deleted_lines()),
                            new_end_position: self.visible_text.to_point(edit.new_bytes.end),
                        },
                    );
                },
                None => {
                    break;
                },
            }
        }
        tree.version = self.version.clone();
    }

    /// Asks for the text to be parsed, if there is a language and no parse is
    /// on the way.
    pub fn reparse(&mut self, cx: &mut ModelContext)
        requires
            old(self).wf(),
        ensures
            final(self).wf(),
            final(self)@ == reparsing(old(self)@),
            final(cx)@ == old(cx)@ + reparse_effects(old(self)@),
            final(cx).same_place(old(cx)),
    {
        let ghost effects = reparse_effects(self@);
        if self.parsing_in_background {
            proof {
                assert(old(cx)@ + effects =~= old(cx)@);
            }
            return;
        }
        match clone_language(&self.language) {
            Some(language) => {
                let old_tree = self.syntax_tree();
                let ghost doc = self.doc();
                proof {
                    self.lemma_text();
                }
                let task = ParseTask {
                    text: self.visible_text.clone(),
                    old_tree,
                    version: self.version.clone(),
                    language,
                };
                self.parsing_in_background = true;
                cx.push(Effect::Parse(task));
                proof {
                    assert(self.doc() == doc);
                    assert(old(cx)@ + effects =~= old(cx)@.push(effects[0]));
                }
            },
            None => {
                proof {
                    assert(old(cx)@ + effects =~= old(cx)@);
                }
            },
        }
    }

    /// The file behind the buffer.
    pub fn file(&self) -> (file: Option<&File>)
        ensures
            match file {
                Some(file) => self@.file == Some(file@),
                None => self@.file is None,
            },
    {
        match &self.file {
            Some(file) => Some(file),
            None => None,
        }
    }

    /// The visible text.
    pub fn as_rope(&self) -> (rope: &Rope)
        requires
            self.wf(),
        ensures
            rope@ == self@.text(),
    {
        proof {
            self.lemma_text();
        }
        &self.visible_text
    }

    pub fn language(&self) -> (language: Option<&Arc<Language>>)
        ensures
            match language {
                Some(language) => self@.language == Some(**language),
                None => self@.language is None,
            },
    {
        match &self.language {
            Some(language) => Some(language),
            None => None,
        }
    }

    /// Another language: the text is parsed anew.
    pub fn set_language(&mut self, language: Option<Arc<Language>>, cx: &mut ModelContext)
        requires
            old(self).wf(),
        ensures
            final(self).wf(),
            ({
                let changed = State { language: language_of(language), ..old(self)@ };
                &&& final(self)@ == reparsing(changed)
                &&& final(cx)@ == old(cx)@ + reparse_effects(changed)
            }),
            final(cx).same_place(old(cx)),
    {
        self.language = language;
        assert(self.doc() == old(self).doc());
        self.reparse(cx);
    }

    /// Sets how long a change may wait for the text to be parsed.
    pub fn set_sync_parse_timeout(&mut self, timeout: u64)
        requires
            old(self).wf(),
        ensures
            final(self).wf(),
            final(self)@ == (State { sync_parse_timeout: timeout, ..old(self)@ }),
    {
        self.sync_parse_timeout = timeout;
        assert(self.doc() == old(self).doc());
    }

    /// How often the text has been parsed.
    pub fn parse_count(&self) -> (count: usize)
        ensures
            count == self@.parse_count,
    {
        self.parse_count
    }

    /// Whether a parse is on the way.
    pub fn is_parsing(&self) -> (b: bool)
        ensures
            b == self@.parsing,
    {
        self.parsing_in_background
    }

    /// Whether there are changes that have not been saved, or nothing to save
    /// them to.
    pub fn is_dirty(&self) -> (dirty: bool)
        ensures
            dirty == self@.is_dirty(),
    {
        self.version.greater_than(&self.saved_version) || match &self.file {
            Some(file) => file.is_deleted(),
            None => false,
        }
    }

    /// Whether the file has changed on disk while there are changes that have
    /// not been saved.
    pub fn has_conflict(&self) -> (conflict: bool)
        ensures
            conflict == self@.has_conflict(),
    {
        self.version.greater_than(&self.saved_version) && match &self.file {
            Some(file) => file.mtime() > self.saved_mtime,
            None => false,
        }
    }

    /// The number of the buffer that other replicas know it by.
    pub fn remote_id(&self) -> (id: u64)
        ensures
            id == self@.remote_id,
    {
        self.remote_id
    }

    /// The operations that have been seen.
    pub fn version(&self) -> (version: Global)
        ensures
            version@ == self@.version,
    {
        self.version.clone()
    }

    /// How many operations wait for others.
    pub fn deferred_ops_len(&self) -> (len: usize)
        ensures
            len == self@.deferred_ops.len(),
    {
        self.deferred_ops.len()
    }
}

/// The places of a change fit into the texts.
proof fn lemma_tree_edit(buffer: &Buffer, w: Comparison, k: int)
    requires
        buffer.wf(),
        w.cells == buffer@.cells,
        0 <= k < w.spans(w.len()).len(),
    ensures
        ({
            let span = w.spans(w.len())[k];
            let text = buffer@.text();
            let old_text = w.old_text(w.len());
            &&& 0 <= span.new.0 <= span.new.1 <= text.len()
            &&& 0 <= span.old.0 <= span.old.1 <= old_text.len()
            &&& span.new.0 + (span.old.1 - span.old.0) <= usize::MAX
        }),
{
    buffer.lemma_text();
    lemma_spans(w, w.len());
    lemma_span_hidden(w, w.len(), k);
    lemma_old_text(w, 0, w.len());
}

} // verus!
