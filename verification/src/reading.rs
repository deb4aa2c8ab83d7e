//! Reading a file of a bounded size.

use vstd::prelude::*;
use crate::messages::{
    message_about, number_message, number_message_text, size_message, size_message_text,
};
use crate::paths::RelPath;
use crate::protocol::{Action, Event};
use crate::server::FilesystemServer;
use crate::walk::{walk_next, WalkNext, WalkStep};

verus! {

/// How far the reading of a file has come: what is being waited for.
#[derive(Debug, Clone, Copy)]
pub enum ReadPhase {
    /// A look at the first parts of the path.
    Walking(usize),
    /// The file, to be opened.
    Opening,
    /// What the open file is.
    Inspecting,
    /// What it holds.
    Reading,
}

/// What follows in the reading of a file.
pub ghost enum ReadNext {
    Wait(ReadPhase),
    Read(Seq<u8>),
    Refused(Seq<char>),
}

impl ReadPhase {
    /// Whether a file `path` can be in this phase.
    pub open spec fn fits(self, path: Seq<Seq<char>>) -> bool {
        self matches ReadPhase::Walking(n) ==> 1 <= n <= path.len()
    }
}

/// What follows when `event` comes in the reading of `path` with a limit of `max` bytes.
pub open spec fn read_next(
    max: u64,
    path: Seq<Seq<char>>,
    phase: ReadPhase,
    event: Event,
) -> ReadNext {
    match phase {
        ReadPhase::Walking(n) => match walk_next(path, n as int, event) {
            WalkNext::Inspect(m) => ReadNext::Wait(ReadPhase::Walking(m as usize)),
            WalkNext::Clear => ReadNext::Wait(ReadPhase::Opening),
            WalkNext::Refused(message) => ReadNext::Refused(message),
        },
        ReadPhase::Opening => match event {
            Event::Failed { error } => ReadNext::Refused("cannot open file: "@ + error@),
            Event::Done => ReadNext::Wait(ReadPhase::Inspecting),
            _ => ReadNext::Wait(phase),
        },
        ReadPhase::Inspecting => match event {
            Event::Failed { error } => ReadNext::Refused("cannot inspect file: "@ + error@),
            Event::Stat { is_file, len } => if !is_file {
                ReadNext::Refused("path is not a regular file"@)
            } else if len > max {
                ReadNext::Refused(size_message("file"@, len as nat, max as nat))
            } else {
                ReadNext::Wait(ReadPhase::Reading)
            },
            _ => ReadNext::Wait(phase),
        },
        ReadPhase::Reading => match event {
            Event::Failed { error } => ReadNext::Refused("cannot read file: "@ + error@),
            Event::Bytes { bytes } => if bytes@.len() > max {
                ReadNext::Refused(
                    number_message("file grew beyond the "@, max as nat, "-byte limit"@),
                )
            } else {
                ReadNext::Read(bytes@)
            },
            _ => ReadNext::Wait(phase),
        },
    }
}

/// What follows in the reading of a file.
#[derive(Debug)]
pub enum ReadStep {
    /// Wait for what the phase says.
    Wait(ReadPhase),
    /// The file was read.
    Read(Vec<u8>),
    /// The reading is refused.
    Refused(String),
}

impl View for ReadStep {
    type V = ReadNext;

    open spec fn view(&self) -> ReadNext {
        match self {
            ReadStep::Wait(phase) => ReadNext::Wait(*phase),
            ReadStep::Read(bytes) => ReadNext::Read(bytes@),
            ReadStep::Refused(message) => ReadNext::Refused(message@),
        }
    }
}

/// One more byte than `max`, so that a file that is too large shows.
pub open spec fn read_limit(max: u64) -> u64 {
    if max == u64::MAX {
        max
    } else {
        (max + 1) as u64
    }
}

/// What is asked of the disk in a phase of the reading of `path`.
pub open spec fn read_action(
    max: u64,
    path: Seq<Seq<char>>,
    phase: ReadPhase,
    action: Action,
) -> bool {
    match phase {
        ReadPhase::Walking(n) => action matches Action::Inspect { path: p } && p@ == path.take(
            n as int,
        ),
        ReadPhase::Opening => action matches Action::OpenFile { path: p } && p@ == path,
        ReadPhase::Inspecting => action == Action::StatFile,
        ReadPhase::Reading => action == Action::ReadFile { limit: read_limit(max) },
    }
}

impl FilesystemServer {
    /// What to ask of the disk in a phase of the reading of `path`.
    pub fn read_action(&self, path: &RelPath, phase: ReadPhase) -> (action: Action)
        requires
            phase.fits(path@),
        ensures
            read_action(self.max_file_bytes, path@, phase, action),
    {
        match phase {
            ReadPhase::Walking(n) => Action::Inspect { path: path.first(n) },
            ReadPhase::Opening => Action::OpenFile { path: path.copy() },
            ReadPhase::Inspecting => Action::StatFile,
            ReadPhase::Reading => Action::ReadFile { limit: self.max_file_bytes.saturating_add(1) },
        }
    }

    /// What follows when `event` comes in a phase of the reading of `path`: what to wait for next,
    /// the bytes of the file, or a refusal. What is no regular file is refused, and what is larger
    /// than the limit, by its size or by what could be read.
    pub fn read_bytes(&self, path: &RelPath, phase: ReadPhase, event: Event) -> (step: ReadStep)
        requires
            phase.fits(path@),
        ensures
            step@ == read_next(self.max_file_bytes, path@, phase, event),
            step matches ReadStep::Wait(p) ==> p.fits(path@),
    {
        match phase {
            ReadPhase::Walking(n) => match Self::ensure_no_symlink_components(path, n, &event) {
                WalkStep::Inspect(m) => ReadStep::Wait(ReadPhase::Walking(m)),
                WalkStep::Clear => ReadStep::Wait(ReadPhase::Opening),
                WalkStep::Refused(message) => ReadStep::Refused(message),
            },
            ReadPhase::Opening => match event {
                Event::Failed { error } => ReadStep::Refused(
                    message_about("cannot open file: ", error.as_str()),
                ),
                Event::Done => ReadStep::Wait(ReadPhase::Inspecting),
                _ => ReadStep::Wait(phase),
            },
            ReadPhase::Inspecting => match event {
                Event::Failed { error } => ReadStep::Refused(
                    message_about("cannot inspect file: ", error.as_str()),
                ),
                Event::Stat { is_file, len } => if !is_file {
                    ReadStep::Refused(String::from_str("path is not a regular file"))
                } else if len > self.max_file_bytes {
                    ReadStep::Refused(size_message_text("file", len, self.max_file_bytes))
                } else {
                    ReadStep::Wait(ReadPhase::Reading)
                },
                _ => ReadStep::Wait(phase),
            },
            ReadPhase::Reading => match event {
                Event::Failed { error } => ReadStep::Refused(
                    message_about("cannot read file: ", error.as_str()),
                ),
                Event::Bytes { bytes } => if bytes.len() as u64 > self.max_file_bytes {
                    ReadStep::Refused(
                        number_message_text(
                            "file grew beyond the ",
                            self.max_file_bytes,
                            "-byte limit",
                        ),
                    )
                } else {
                    ReadStep::Read(bytes)
                },
                _ => ReadStep::Wait(phase),
            },
        }
    }
}

} // verus!
