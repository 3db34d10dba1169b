//! Filters and hooks that configure the engine's behaviour.
//!
//! A filter answers for every candidate file with one of three verdicts:
//! take it, leave it out, or stop the walk.  A find hook observes progress.

use vstd::prelude::*;

use crate::file::{FileEntry, FilePath};

verus! {

/// What to do with a file before the engine processes it.
#[derive(Debug, Clone, Copy, PartialEq, Eq, Structural)]
pub enum FileAction {
    /// Include it in the analysis.
    Include,
    /// Exclude it from the analysis.
    Exclude,
}

/// The verdict a filter assigns to a file: go on (including or excluding
/// this file), or stop the walk at once and mark the result partial.
#[derive(Debug, Clone, Copy, PartialEq, Eq, Structural)]
pub enum FilterAction {
    /// Keep walking; the payload says whether this file takes part.
    Continue(FileAction),
    /// Stop the walk immediately.
    Break,
}

/// A filter over (path, metadata) pairs.  The engine consults it for every
/// candidate file; it never sees file contents.
pub trait DeduperFileFilter {
    /// The verdict this filter assigns to a file.
    spec fn verdict(&self, file: FilePath) -> FilterAction;

    /// Decide what the engine should do with the given file.
    fn handle_file(&self, file: &FilePath) -> (r: FilterAction)
        ensures
            r == self.verdict(*file),
    ;
}

/// A hook that observes the progress of a discovery run.  It may be shared
/// by several workers, so it takes `&self`.
pub trait DeduperFindHook {
    /// Called once, after filtering, with the number of selected files.
    fn files_selected(&self, count: usize);

    /// Called once for every file whose hashing finished, with its digest
    /// and its entry.
    fn entry_processed(&self, hash: &Vec<u8>, entry: &FileEntry);
}

/// The built-in filter: a size window `[lower, upper]`, either bound
/// optional.  Files outside the window are excluded; it never stops the
/// walk.
#[derive(Debug, Clone, Copy)]
pub struct ContentLimit {
    /// If the size of the file is under `lower_limit` bytes, it is not
    /// taken into account.
    pub lower_limit: Option<u64>,
    /// If the size of the file is over `upper_limit` bytes, it is not
    /// taken into account.
    pub upper_limit: Option<u64>,
}

impl ContentLimit {
    /// Whether a file of the given size falls inside the window.
    pub open spec fn allows(self, size: u64) -> bool {
        &&& (self.lower_limit matches Some(lower) ==> size >= lower)
        &&& (self.upper_limit matches Some(upper) ==> size <= upper)
    }

    /// Create an instance with no lower and upper limits.
    pub fn no_limit() -> (r: ContentLimit)
        ensures
            r.lower_limit is None,
            r.upper_limit is None,
    {
        ContentLimit { lower_limit: None, upper_limit: None }
    }

    /// Recreate the instance with a new lower limit.
    pub fn with_lower_limit(self, lower_limit: u64) -> (r: ContentLimit)
        ensures
            r.lower_limit == Some(lower_limit),
            r.upper_limit == self.upper_limit,
    {
        ContentLimit { lower_limit: Some(lower_limit), upper_limit: self.upper_limit }
    }

    /// Recreate the instance with a new upper limit.
    pub fn with_upper_limit(self, upper_limit: u64) -> (r: ContentLimit)
        ensures
            r.lower_limit == self.lower_limit,
            r.upper_limit == Some(upper_limit),
    {
        ContentLimit { lower_limit: self.lower_limit, upper_limit: Some(upper_limit) }
    }

    /// The verdict for a file of the given size: the file takes part
    /// exactly when it falls inside the window.
    pub fn include_file_inner(&self, size: u64) -> (r: FilterAction)
        ensures
            r == FilterAction::Continue(
                if self.allows(size) {
                    FileAction::Include
                } else {
                    FileAction::Exclude
                },
            ),
    {
        if let Some(lower) = self.lower_limit {
            if size < lower {
                return FilterAction::Continue(FileAction::Exclude);
            }
        }
        if let Some(upper) = self.upper_limit {
            if size > upper {
                return FilterAction::Continue(FileAction::Exclude);
            }
        }
        FilterAction::Continue(FileAction::Include)
    }
}

impl DeduperFileFilter for ContentLimit {
    open spec fn verdict(&self, file: FilePath) -> FilterAction {
        FilterAction::Continue(
            if self.allows(file.size) {
                FileAction::Include
            } else {
                FileAction::Exclude
            },
        )
    }

    fn handle_file(&self, file: &FilePath) -> (r: FilterAction) {
        self.include_file_inner(file.size())
    }
}

/// A filter that stops the walk at once: whatever discovery had produced
/// so far is reported, marked partial.
pub struct StopWalk;

impl DeduperFileFilter for StopWalk {
    open spec fn verdict(&self, file: FilePath) -> FilterAction {
        FilterAction::Break
    }

    fn handle_file(&self, file: &FilePath) -> (r: FilterAction) {
        FilterAction::Break
    }
}

/// A [`DeduperFindHook`] that does not do anything.
pub struct NoopFindHook;

impl DeduperFindHook for NoopFindHook {
    fn files_selected(&self, count: usize) {
    }

    fn entry_processed(&self, hash: &Vec<u8>, entry: &FileEntry) {
    }
}

} // verus!
