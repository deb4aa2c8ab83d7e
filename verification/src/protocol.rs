//! What the server asks of the disk, and what the disk answers. An answer to something that was
//! not asked changes nothing: what is being waited for stays the same.

use vstd::prelude::*;
use crate::paths::RelPath;

verus! {

/// One piece of work on the disk. Every path starts from the exposed directory. At most one file
/// and one listing are open at a time: the ones that were opened last.
#[derive(Debug)]
pub enum Action {
    /// Look whether something is a symlink, without following it.
    Inspect { path: RelPath },
    /// Open a file for reading.
    OpenFile { path: RelPath },
    /// Ask what the open file is and how large.
    StatFile,
    /// Read the open file from its start, at most `limit` bytes.
    ReadFile { limit: u64 },
    /// Open a directory.
    OpenDir { path: RelPath },
    /// Start to list the open directory.
    ListDir,
    /// Take the next entry off the listing.
    NextEntry,
    /// Ask what the last entry is.
    InspectEntry,
    /// Wait until no one else writes to `path`, and keep others from it until the task is done.
    Lock { path: RelPath },
    /// Create and open a file for writing, where nothing of that name exists.
    CreateFile { path: RelPath },
    /// Write text to the open file.
    WriteFile { content: String },
    /// Have what was written to the open file reach the disk.
    SyncFile,
    /// Remove a file.
    RemoveFile { path: RelPath },
    /// Give a file another name in one step; a file of that name is replaced.
    Rename { from: RelPath, to: RelPath },
    /// Create a directory and those that it is in.
    CreateDirs { path: RelPath },
}

/// How a piece of work went.
#[derive(Debug)]
pub enum Event {
    /// It is done.
    Done,
    /// It failed; `error` says why.
    Failed { error: String },
    /// What was to be inspected does not exist.
    NotFound,
    /// It exists.
    Inspected { symlink: bool },
    /// What the open file is.
    Stat { is_file: bool, len: u64 },
    /// What was read.
    Bytes { bytes: Vec<u8> },
    /// The next entry of the listing.
    Entry { name: String },
    /// The listing has no more entries.
    NoEntry,
    /// What the last entry is.
    EntryType { is_dir: bool, is_file: bool, is_symlink: bool },
}

} // verus!
