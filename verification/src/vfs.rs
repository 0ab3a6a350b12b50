//! Configuration handle for the virtual file system that hosts the store.
//!
//! The store keeps its write-ahead log and table files under one base
//! directory. The actual file operations (append, positional read, sync)
//! are an external collaborator: only this cheaply clonable handle on the
//! base path, and the error kind those operations surface, are defined
//! here.

use vstd::prelude::*;

verus! {

/// Error surfaced by the underlying file operations.
#[derive(Clone, Copy, Debug, PartialEq, Eq, Structural)]
pub enum VfsError {
    /// The operating system reported a failure.
    IoError,
}

/// Handle on the base directory that holds the store's files.
#[derive(Clone, Debug)]
pub struct Vfs {
    base: String,
}

impl Vfs {
    /// The base directory, as a sequence of characters.
    pub closed spec fn base_spec(&self) -> Seq<char> {
        self.base@
    }

    /// Create a handle rooted at the given base directory.
    pub fn new(base: String) -> (v: Vfs)
        ensures
            v.base_spec() == base@,
    {
        Vfs { base }
    }

    /// The base directory this handle is rooted at.
    pub fn base(&self) -> (b: &String)
        ensures
            b@ == self.base_spec(),
    {
        &self.base
    }
}

} // verus!
