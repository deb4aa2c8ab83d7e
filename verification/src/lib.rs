//! The decisions of a filesystem server that exposes one directory to its clients.
//!
//! A request starts with a method of [`FilesystemServer`] and gives a [`Step`](tasks::Step). While
//! it waits, [`FilesystemServer::action`] says what to ask of the disk, and
//! [`FilesystemServer::resume`] what follows from the answer. The disk itself is left to the
//! caller: every path, limit, revision, message and order of work is decided here.
//!
//! What holds of a request as a whole, on a disk that behaves as [`disk`] describes, is stated and
//! proved in [`laws`].

pub mod content;
pub mod disk;
pub mod laws;
pub mod listing;
pub mod locks;
pub mod messages;
pub mod paths;
pub mod preview;
pub mod protocol;
pub mod reading;
pub mod revision;
pub mod search;
pub mod server;
pub mod tasks;
pub mod text;
pub mod walk;
pub mod writing;

pub use paths::RelPath;
pub use preview::bounded_preview;
pub use revision::revision;
pub use server::FilesystemServer;
