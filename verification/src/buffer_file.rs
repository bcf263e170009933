//! A buffer and its file.

use vstd::prelude::*;
use vstd::utf8::*;

use crate::buffer::{Buffer, maybe_file};
use crate::clock::{Global, Version, exceeds, includes, same_version, seen_of};
use crate::context::{Effect, EffectModel, Event, ModelContext};
use crate::error::Error;
use crate::file::{File, FileModel};
use crate::rope::Rope;
use crate::state::{State, edited_within};
use crate::undo_laws::can_edit;

verus! {

/// A text to be written to a file.
pub struct SaveRequest {
    pub buffer_id: u64,
    pub text: Rope,
    pub version: Global,
}

/// The file has another path or another time of modification than is known.
pub open spec fn file_differs(file: FileModel, path: Seq<char>, mtime: u64) -> bool {
    file.path != path || file.mtime != mtime
}

/// What is asked for, and reported, when a file has changed on disk: its text
/// is read in if it is new and nothing has been edited since the last save.
pub open spec fn file_effects(
    s: State,
    path: Seq<char>,
    mtime: u64,
    new_text: Option<Seq<char>>,
) -> Seq<EffectModel> {
    let file = s.file->0;
    (if file_differs(file, path, mtime) {
        seq![EffectModel::Emit(Event::FileHandleChanged)]
    } else {
        Seq::empty()
    }) + match new_text {
        Some(new_text) => if file.mtime != mtime && same_version(s.version, s.saved_version) {
            seq![EffectModel::Reload { new_text, mtime }]
        } else {
            Seq::empty()
        },
        None => Seq::empty(),
    }
}

/// The buffer once a version of its text has been written to its file, or to a
/// new one.
pub open spec fn saved(
    s: State,
    version: Version,
    mtime: u64,
    new_file: Option<FileModel>,
) -> State {
    State {
        saved_version: version,
        saved_mtime: mtime,
        file: if new_file is Some {
            new_file
        } else {
            s.file
        },
        ..s
    }
}

/// A buffer whose text has been saved as it is has no changes to save, unless
/// its file is gone, and is not in conflict with its file; after the next edit
/// it has changes to save.
pub proof fn law_saving_and_dirtying(
    s: State,
    mtime: u64,
    new_file: Option<FileModel>,
    ranges: Seq<(int, int)>,
    text: Seq<char>,
)
    requires
        can_edit(s, ranges, text),
    ensures
        ({
            let kept = saved(s, s.version, mtime, new_file);
            let edited = edited_within(kept, ranges, text);
            &&& kept.is_dirty() <==> kept.file is Some && kept.file->0.deleted
            &&& !kept.has_conflict()
            &&& edited.is_dirty()
            &&& edited.has_conflict() <==> kept.file is Some && kept.file->0.mtime > mtime
        }),
{
    let kept = saved(s, s.version, mtime, new_file);
    let edited = edited_within(kept, ranges, text);
    assert(includes(kept.version, kept.saved_version));
    assert(!exceeds(kept.version, kept.saved_version));
    let id = kept.local_clock;
    assert(seen_of(edited.version, id.replica_id) > seen_of(s.version, id.replica_id));
    assert(!includes(s.version, edited.version));
    assert(exceeds(edited.version, edited.saved_version));
}

impl Buffer {
    /// The file behind the buffer, to be changed.
    pub fn file_mut(&mut self) -> (file: Option<&mut File>)
        ensures
            match file {
                Some(file) => {
                    &&& old(self).file == Some(*file)
                    &&& *final(self) == (Buffer { file: Some(*final(file)), ..*old(self) })
                },
                None => old(self).file is None && *final(self) == *old(self),
            },
    {
        match &mut self.file {
            Some(file) => Some(file),
            None => None,
        }
    }

    /// What is to be written to the file; an error if there is none.
    pub fn save(&self) -> (request: Result<SaveRequest, Error>)
        requires
            self.wf(),
        ensures
            match request {
                Ok(request) => {
                    &&& self@.file is Some
                    &&& request.buffer_id == self@.remote_id
                    &&& request.text@ == self@.text()
                    &&& request.version@ == self@.version
                },
                Err(error) => self@.file is None && error == Error::NoFile,
            },
    {
        if self.file.is_none() {
            return Err(Error::NoFile);
        }
        proof {
            self.lemma_text();
        }
        Ok(
            SaveRequest {
                buffer_id: self.remote_id,
                text: self.visible_text.clone(),
                version: self.version.clone(),
            },
        )
    }

    /// A version of the text has been written to the file, or to a new one.
    pub fn did_save(
        &mut self,
        version: Global,
        mtime: u64,
        new_file: Option<File>,
        cx: &mut ModelContext,
    )
        requires
            old(self).wf(),
        ensures
            final(self).wf(),
            final(cx).same_place(old(cx)),
            final(self)@ == saved(old(self)@, version@, mtime, maybe_file(new_file)),
            final(cx)@ == old(cx)@.push(EffectModel::Emit(Event::Saved)),
    {
        self.saved_mtime = mtime;
        self.saved_version = version;
        if new_file.is_some() {
            self.file = new_file;
        }
        assert(self.doc() == old(self).doc());
        cx.emit(Event::Saved);
    }

    /// The file has changed on disk.
    pub fn file_updated(
        &mut self,
        path: String,
        mtime: u64,
        new_text: Option<String>,
        cx: &mut ModelContext,
    )
        requires
            old(self).wf(),
            old(self)@.file is Some,
        ensures
            final(self).wf(),
            final(cx).same_place(old(cx)),
            final(self)@ == (State {
                file: Some(FileModel { path: path@, mtime, ..old(self)@.file->0 }),
                ..old(self)@
            }),
            final(cx)@ == old(cx)@ + file_effects(
                old(self)@,
                path@,
                mtime,
                crate::operation::chars_of(new_text),
            ),
    {
        let ghost start = cx@;
        let ghost s = self@;
        let ghost new_chars = crate::operation::chars_of(new_text);
        let ghost path_chars = path@;
        let unchanged = self.version.same_as(&self.saved_version);
        let mut changed = false;
        let mut reload: Option<String> = None;
        match self.file.take() {
            Some(mut file) => {
                if path != *file.path() {
                    file.set_path(path);
                    changed = true;
                }
                if mtime != file.mtime() {
                    file.set_mtime(mtime);
                    changed = true;
                    if unchanged {
                        reload = new_text;
                    }
                }
                self.file = Some(file);
            },
            None => {},
        }
        assert(self.doc() == old(self).doc());
        if changed {
            cx.emit(Event::FileHandleChanged);
        }
        match reload {
            Some(new_text) => {
                cx.push(Effect::Reload { new_text, mtime });
            },
            None => {},
        }
        proof {
            assert(cx@ =~= start + file_effects(s, path_chars, mtime, new_chars));
        }
    }

    /// The file has been deleted.
    pub fn file_deleted(&mut self, cx: &mut ModelContext)
        ensures
            *final(self) == *old(self),
            final(cx).same_place(old(cx)),
            final(cx)@ == old(cx)@ + if same_version(old(self)@.version, old(self)@.saved_version) {
                seq![
                    EffectModel::Emit(Event::Dirtied),
                    EffectModel::Emit(Event::FileHandleChanged),
                ]
            } else {
                seq![EffectModel::Emit(Event::FileHandleChanged)]
            },
    {
        let ghost start = cx@;
        if self.version.same_as(&self.saved_version) {
            cx.emit(Event::Dirtied);
        }
        cx.emit(Event::FileHandleChanged);
        proof {
            let dirtied = EffectModel::Emit(Event::Dirtied);
            let changed = EffectModel::Emit(Event::FileHandleChanged);
            assert(start.push(dirtied).push(changed) =~= start + seq![dirtied, changed]);
            assert(start.push(changed) =~= start + seq![changed]);
        }
    }

    /// The buffer is being closed.
    pub fn close(&mut self, cx: &mut ModelContext)
        ensures
            *final(self) == *old(self),
            final(cx).same_place(old(cx)),
            final(cx)@ == old(cx)@.push(EffectModel::Emit(Event::Closed)),
    {
        cx.emit(Event::Closed);
    }

    /// The buffer is gone: its file, if any, is told.
    pub fn release(&mut self, cx: &mut ModelContext)
        ensures
            *final(self) == *old(self),
            final(cx).same_place(old(cx)),
            final(cx)@ == if old(self)@.file is Some {
                old(cx)@.push(EffectModel::Removed)
            } else {
                old(cx)@
            },
    {
        if self.file.is_some() {
            cx.push(Effect::Removed);
        }
    }
}

} // verus!
