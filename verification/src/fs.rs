//! File and directory entries of a snapshot.

use vstd::prelude::*;

use crate::path::EntryPath;

verus! {

/// A regular file entry. For synchronization purposes two files with equal
/// paths are the same object, and they are equal when their sizes agree:
/// no content hash and no timestamps enter the comparison.
#[derive(Debug, PartialEq, Eq)]
pub struct File {
    /// Relative path.
    pub path: EntryPath,
    /// File size in bytes.
    pub size: u64,
}

impl File {
    pub fn new(path: EntryPath, size: u64) -> (r: Self)
        ensures
            r.path == path,
            r.size == size,
    {
        File { path, size }
    }
}

/// A directory entry: a container identified by its relative path alone.
#[derive(Debug, PartialEq, Eq)]
pub struct Directory {
    /// Relative path.
    pub path: EntryPath,
}

impl Directory {
    pub fn new(path: EntryPath) -> (r: Self)
        ensures
            r.path == path,
    {
        Directory { path }
    }
}

} // verus!
