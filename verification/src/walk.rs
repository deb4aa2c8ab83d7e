//! Looking for symlinks along a path, from the exposed directory down.

use vstd::prelude::*;
use crate::messages::{inspect_message, inspect_message_text, message_about};
use crate::paths::{displayed, RelPath};
use crate::protocol::Event;
use crate::server::FilesystemServer;

verus! {

/// What follows on a look at a part of a path: the first parts to look at next, that no symlink
/// was found, or a refusal.
pub ghost enum WalkNext {
    Inspect(int),
    Clear,
    Refused(Seq<char>),
}

/// What follows when `event` tells of the first `n` parts of `path`.
pub open spec fn walk_next(path: Seq<Seq<char>>, n: int, event: Event) -> WalkNext {
    match event {
        Event::Inspected { symlink } => if symlink {
            WalkNext::Refused("path contains a symlink component: "@ + displayed(path.take(n)))
        } else if n < path.len() {
            WalkNext::Inspect(n + 1)
        } else {
            WalkNext::Clear
        },
        Event::NotFound => WalkNext::Clear,
        Event::Failed { error } => WalkNext::Refused(
            inspect_message(displayed(path.take(n)), error@),
        ),
        _ => WalkNext::Inspect(n),
    }
}

/// What follows on a look at a part of a path.
#[derive(Debug)]
pub enum WalkStep {
    /// Look at that many parts.
    Inspect(usize),
    /// No part is a symlink, as far as the path exists.
    Clear,
    /// The path is refused.
    Refused(String),
}

impl View for WalkStep {
    type V = WalkNext;

    open spec fn view(&self) -> WalkNext {
        match self {
            WalkStep::Inspect(n) => WalkNext::Inspect(*n as int),
            WalkStep::Clear => WalkNext::Clear,
            WalkStep::Refused(message) => WalkNext::Refused(message@),
        }
    }
}

impl FilesystemServer {
    /// What follows when `event` tells of the first `n` parts of `path`. A symlink is refused, and
    /// a part that cannot be looked at; below what does not exist there is nothing to look at.
    pub fn ensure_no_symlink_components(path: &RelPath, n: usize, event: &Event) -> (step: WalkStep)
        requires
            1 <= n <= path@.len(),
        ensures
            step@ == walk_next(path@, n as int, *event),
    {
        match event {
            Event::Inspected { symlink } => if *symlink {
                WalkStep::Refused(
                    message_about(
                        "path contains a symlink component: ",
                        path.display_first(n).as_str(),
                    ),
                )
            } else if n < path.len() {
                WalkStep::Inspect(n + 1)
            } else {
                WalkStep::Clear
            },
            Event::Failed { error } => WalkStep::Refused(
                inspect_message_text(path.display_first(n).as_str(), error.as_str()),
            ),
            Event::NotFound => WalkStep::Clear,
            _ => WalkStep::Inspect(n),
        }
    }
}

} // verus!
