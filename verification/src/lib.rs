//! Finds byte-identical files within a set of roots and reports groups of
//! duplicates keyed by content hash.
//!
//! The crate is organised around an in-memory discovery engine: candidate
//! files (paths, sizes, contents) are filtered by a size window, hashed
//! progressively chunk by chunk, and grouped by `(size, digest)`.  A
//! persistent hash cache keyed by `(path, mtime)` lets unchanged files skip
//! rehashing.  Removal planners decide which members of a duplicate group to
//! delete; the actual file I/O is left to the caller.

use vstd::prelude::*;

pub mod db;
pub mod digest;
pub mod duplicates;
pub mod engine;
pub mod file;
pub mod hasher;
pub mod removal;
pub mod traits;

pub use duplicates::{DeduperResult, FileEntries};
pub use file::{FileEntry, FilePath, SourceFile};
pub use engine::{Deduper, DeduperBuilder};
pub use traits::{ContentLimit, DeduperFileFilter, DeduperFindHook, FileAction, FilterAction, NoopFindHook, StopWalk};

verus! {

/// Configuration for a cached discovery run: the roots to search, the
/// lower size limit, and where the hash database lives.
#[derive(Debug)]
pub struct Params {
    /// If the size of a file is under `lower_limit` bytes, it is not taken
    /// into account.
    pub lower_limit: u64,
    /// Where to start the search from.
    pub roots: Vec<String>,
    /// Where to store the hash database.
    pub db: String,
}

impl Params {
    /// Create a new instance.
    pub fn new(lower_limit: u64, roots: Vec<String>, db: String) -> (r: Params)
        ensures
            r.lower_limit == lower_limit,
            r.roots@ == roots@,
            r.db == db,
    {
        Params { lower_limit, roots, db }
    }

    /// Get the roots that this instance was initialized with.  A root is a
    /// path where searching starts from.
    pub fn roots(&self) -> (r: &Vec<String>)
        ensures
            r@ == self.roots@,
    {
        &self.roots
    }

    /// Get the path to the database.
    pub fn db_path(&self) -> (r: &String)
        ensures
            r == self.db,
    {
        &self.db
    }
}

} // verus!
