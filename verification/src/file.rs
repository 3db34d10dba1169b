//! The file records that flow through the engine.
//!
//! Paths are plain strings and metadata is captured once, as a size and a
//! modification time in seconds; the engine never re-reads it.

use vstd::prelude::*;

verus! {

/// A path plus a snapshot of its metadata.  Created by the caller from a
/// directory walk (or from an in-memory tree); consumed by the hashers.
pub struct FilePath {
    /// The path of the file.
    pub path: String,
    /// The size of the file in bytes, as captured from its metadata.
    pub size: u64,
    /// The last-modification time of the file, in seconds.
    pub mtime: i64,
}

impl FilePath {
    /// Create a new instance from a path and its metadata snapshot.
    pub fn new(path: String, size: u64, mtime: i64) -> (r: FilePath)
        ensures
            r.path == path,
            r.size == size,
            r.mtime == mtime,
    {
        FilePath { path, size, mtime }
    }

    /// Get the path.
    pub fn path(&self) -> (r: &String)
        ensures
            r@ == self.path@,
    {
        &self.path
    }

    /// Get the size captured from the file's metadata.
    pub fn size(&self) -> (r: u64)
        ensures
            r == self.size,
    {
        self.size
    }

    /// Get the last-modification time captured from the file's metadata.
    pub fn mtime(&self) -> (r: i64)
        ensures
            r == self.mtime,
    {
        self.mtime
    }

    /// Convert this instance into a [`FileEntry`].
    pub fn to_file_entry(&self) -> (r: FileEntry)
        ensures
            r.path@ == self.path@,
            r.size == self.size,
    {
        FileEntry { path: self.path.clone(), size: self.size }
    }
}

/// Metadata about a file that the engine finished processing: a path plus
/// its total size in bytes.  Immutable after creation.
#[derive(Debug, Clone)]
pub struct FileEntry {
    /// The path of the file.
    pub path: String,
    /// The size of the file in bytes.
    pub size: u64,
}

impl FileEntry {
    /// Create a new instance.
    pub fn new(path: String, size: u64) -> (r: FileEntry)
        ensures
            r.path@ == path@,
            r.size == size,
    {
        FileEntry { path, size }
    }

    /// Get the path of the file.
    pub fn path(&self) -> (r: &String)
        ensures
            r@ == self.path@,
    {
        &self.path
    }

    /// Get the size of the file.
    pub fn size(&self) -> (r: u64)
        ensures
            r == self.size,
    {
        self.size
    }
}

/// A file of an in-memory tree: a path, the full content, and the captured
/// modification time.  The in-memory engine reads chunks out of `bytes`
/// exactly as the disk-backed driver reads chunks out of the file.
pub struct SourceFile {
    /// The path of the file.
    pub path: String,
    /// The content of the file.
    pub bytes: Vec<u8>,
    /// The last-modification time of the file, in seconds.
    pub mtime: i64,
}

impl SourceFile {
    /// Create a new instance.
    pub fn new(path: String, bytes: Vec<u8>, mtime: i64) -> (r: SourceFile)
        ensures
            r.path@ == path@,
            r.bytes@ == bytes@,
            r.mtime == mtime,
    {
        SourceFile { path, bytes, mtime }
    }
}

} // verus!
