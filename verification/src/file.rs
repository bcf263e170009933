//! The file behind a buffer, as far as the buffer knows it.

use vstd::prelude::*;

verus! {

/// The file behind a buffer.
#[derive(Debug)]
pub struct File {
    pub worktree_id: usize,
    pub entry_id: Option<usize>,
    /// When the file was last modified, in nanoseconds.
    pub mtime: u64,
    pub path: String,
    pub deleted: bool,
}

/// What a file means.
#[verifier::ext_equal]
pub ghost struct FileModel {
    pub worktree_id: usize,
    pub entry_id: Option<usize>,
    pub mtime: u64,
    pub path: Seq<char>,
    pub deleted: bool,
}

impl View for File {
    type V = FileModel;

    open spec fn view(&self) -> FileModel {
        FileModel {
            worktree_id: self.worktree_id,
            entry_id: self.entry_id,
            mtime: self.mtime,
            path: self.path@,
            deleted: self.deleted,
        }
    }
}

impl Clone for File {
    fn clone(&self) -> (copy: Self)
        ensures
            copy@ == self@,
    {
        File {
            worktree_id: self.worktree_id,
            entry_id: self.entry_id,
            mtime: self.mtime,
            path: self.path.clone(),
            deleted: self.deleted,
        }
    }
}

impl File {
    pub fn worktree_id(&self) -> (id: usize)
        ensures
            id == self@.worktree_id,
    {
        self.worktree_id
    }

    pub fn entry_id(&self) -> (id: Option<usize>)
        ensures
            id == self@.entry_id,
    {
        self.entry_id
    }

    pub fn set_entry_id(&mut self, entry_id: Option<usize>)
        ensures
            final(self)@ == (FileModel { entry_id, ..old(self)@ }),
    {
        self.entry_id = entry_id;
    }

    /// When the file was last modified.
    pub fn mtime(&self) -> (mtime: u64)
        ensures
            mtime == self@.mtime,
    {
        self.mtime
    }

    pub fn set_mtime(&mut self, mtime: u64)
        ensures
            final(self)@ == (FileModel { mtime, ..old(self)@ }),
    {
        self.mtime = mtime;
    }

    pub fn path(&self) -> (path: &String)
        ensures
            path@ == self@.path,
    {
        &self.path
    }

    pub fn set_path(&mut self, path: String)
        ensures
            final(self)@ == (FileModel { path: path@, ..old(self)@ }),
    {
        self.path = path;
    }

    pub fn is_deleted(&self) -> (deleted: bool)
        ensures
            deleted == self@.deleted,
    {
        self.deleted
    }
}

} // verus!
