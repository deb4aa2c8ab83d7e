//! Requests in progress, and what comes of them.

use vstd::prelude::*;
use vstd::utf8::{encode_utf8, valid_utf8};
use crate::content::{
    describes, describes_range, describes_search, patched, range_refusal, FileMetadata,
    FileMetadataText, PatchTextFileArgs, ReadRangeArgs, SearchResult, SearchTextArgs, WriteResult,
};
use crate::listing::{in_order, kind_of, same_entries, DirectoryEntry};
use crate::messages::number_message;
use crate::paths::{cleaned, confined, displayed, RelPath};
use crate::protocol::{Action, Event};
use crate::reading::{read_action, read_next, ReadNext, ReadPhase};
use crate::server::FilesystemServer;
use crate::walk::{walk_next, WalkNext};
use crate::writing::{write_action, write_next, WriteJob, WritePhase, WriteStep};

verus! {

/// What a file is read for.
#[derive(Debug)]
pub enum Purpose {
    /// Its text.
    Text,
    /// Its size and revision.
    Metadata,
    /// A part of its text.
    Range(ReadRangeArgs),
    /// The matches of a query.
    Search(SearchTextArgs),
    /// A new text for it.
    Patch(PatchTextFileArgs),
}

/// How far the listing of a directory has come: what is being waited for.
#[derive(Debug)]
pub enum ListPhase {
    /// A look at the first parts of the path.
    Walking(usize),
    /// The directory, to be opened.
    Opening,
    /// Its listing, to be started.
    Listing,
    /// The entry behind those that were listed.
    Next(Vec<DirectoryEntry>),
    /// What the entry is whose name is given.
    Inspecting(Vec<DirectoryEntry>, String),
}

/// How far the creation of a directory has come: what is being waited for.
#[derive(Debug, Clone, Copy)]
pub enum CreatePhase {
    /// A look at the first parts of the path.
    Walking(usize),
    /// The directory, to be created.
    Creating,
}

/// A request that waits for the disk.
#[allow(inconsistent_fields)]
#[derive(Debug)]
pub enum Task {
    Read { purpose: Purpose, path: RelPath, phase: ReadPhase },
    Write { job: WriteJob, phase: WritePhase },
    List { path: RelPath, phase: ListPhase },
    CreateDir { path: RelPath, phase: CreatePhase },
}

/// What a request that succeeded is answered.
#[derive(Debug)]
pub enum Output {
    Text(String),
    Metadata(FileMetadata),
    Range(FileMetadataText),
    Search(SearchResult),
    Written(WriteResult),
    Entries(Vec<DirectoryEntry>),
}

/// What follows in a request: something to ask of the disk, or its end.
#[derive(Debug)]
pub enum Step {
    Wait(Task),
    Done(Result<Output, String>),
}

impl Step {
    /// Whether the request is refused with `message`.
    pub open spec fn refuses(self, message: Seq<char>) -> bool {
        self matches Step::Done(Err(m)) && m@ == message
    }
}

impl Task {
    /// Whether `server` can have such a task.
    pub open spec fn fits(self, server: FilesystemServer) -> bool {
        match self {
            Task::Read { purpose, path, phase } => {
                &&& 0 < path@.len() <= usize::MAX
                &&& confined(path@)
                &&& phase.fits(path@)
                &&& purpose matches Purpose::Search(args) ==> args.query@.len() > 0
            },
            Task::Write { job, phase } => phase.fits(server.max_file_bytes, job),
            Task::List { path, phase } => {
                &&& path@.len() <= usize::MAX
                &&& confined(path@)
                &&& match phase {
                    ListPhase::Walking(n) => 1 <= n <= path@.len(),
                    ListPhase::Next(entries) => entries@.len() <= server.max_dir_entries,
                    ListPhase::Inspecting(entries, _) => entries@.len() < server.max_dir_entries,
                    _ => true,
                }
            },
            Task::CreateDir { path, phase } => {
                &&& 0 < path@.len() <= usize::MAX
                &&& confined(path@)
                &&& phase matches CreatePhase::Walking(n) ==> 1 <= n <= path@.len()
            },
        }
    }
}

/// A request that is refused is over, and its message is the one that it is refused with.
pub proof fn law_refusal_ends_the_request(step: Step, message: Seq<char>)
    ensures
        step.refuses(message) <==> (step matches Step::Done(Err(m)) && m@ == message),
{
}

/// Whether `step` starts the writing of `content` to the file `raw`, or refuses it.
pub open spec fn starts_write(
    step: Step,
    server: FilesystemServer,
    raw: Seq<char>,
    content: Seq<char>,
    overwrite: bool,
    expected: Option<Seq<char>>,
) -> bool {
    if server.read_only {
        step.refuses("server is running in read-only mode"@)
    } else {
        match cleaned(raw, false) {
            Err(message) => step.refuses(message),
            Ok(path) => {
                &&& step matches Step::Wait(Task::Write { job, phase })
                &&& phase == WritePhase::Walking(1)
                &&& job.path@ == path
                &&& job.content@ == content
                &&& job.overwrite == overwrite
                &&& match (job.expected, expected) {
                    (None, None) => true,
                    (Some(e), Some(x)) => e@ == x,
                    _ => false,
                }
            },
        }
    }
}

/// Whether `step` is what is answered when the file `path` turns out to hold `bytes`.
pub open spec fn answers_read(
    step: Step,
    server: FilesystemServer,
    purpose: Purpose,
    path: Seq<Seq<char>>,
    bytes: Seq<u8>,
) -> bool {
    match purpose {
        Purpose::Text => if valid_utf8(bytes) {
            step matches Step::Done(Ok(Output::Text(text))) && encode_utf8(text@) == bytes
        } else {
            step.refuses("file is not valid UTF-8; this server reads text only"@)
        },
        Purpose::Metadata => step matches Step::Done(Ok(Output::Metadata(m))) && describes(
            m,
            path,
            bytes,
        ),
        Purpose::Range(args) => match range_refusal(args.offset, args.max_bytes, bytes) {
            Some(message) => step.refuses(message),
            None => step matches Step::Done(Ok(Output::Range(t))) && describes_range(
                t,
                path,
                bytes,
                args.offset,
                args.max_bytes,
            ),
        },
        Purpose::Search(args) => if valid_utf8(bytes) {
            step matches Step::Done(Ok(Output::Search(s))) && describes_search(
                s,
                path,
                bytes,
                encode_utf8(args.query@),
                args.max_matches as int,
            )
        } else {
            step.refuses("file is not valid UTF-8; this server searches text only"@)
        },
        Purpose::Patch(args) => match patched(args, bytes, server.max_file_bytes) {
            Err(message) => step.refuses(message),
            Ok(result) => exists|content: Seq<char>| #[trigger]
                encode_utf8(content) == result && starts_write(
                    step,
                    server,
                    args.path@,
                    content,
                    true,
                    Some(args.expected_revision@),
                ),
        },
    }
}

/// Whether `step` follows when `event` comes in the listing of `path`.
pub open spec fn list_next(
    step: Step,
    server: FilesystemServer,
    path: RelPath,
    phase: ListPhase,
    event: Event,
) -> bool {
    let max = server.max_dir_entries;
    let waits = |p: ListPhase| step == Step::Wait(Task::List { path, phase: p });
    match phase {
        ListPhase::Walking(n) => match walk_next(path@, n as int, event) {
            WalkNext::Inspect(m) => waits(ListPhase::Walking(m as usize)),
            WalkNext::Clear => waits(ListPhase::Opening),
            WalkNext::Refused(message) => step.refuses(message),
        },
        ListPhase::Opening => match event {
            Event::Failed { error } => step.refuses("cannot open directory: "@ + error@),
            Event::Done => waits(ListPhase::Listing),
            _ => waits(phase),
        },
        ListPhase::Listing => match event {
            Event::Failed { error } => step.refuses("cannot list directory: "@ + error@),
            Event::Done => {
                &&& step matches Step::Wait(Task::List { path: p, phase: ListPhase::Next(entries) })
                &&& p == path
                &&& entries@.len() == 0
            },
            _ => waits(phase),
        },
        ListPhase::Next(entries) => match event {
            Event::Failed { error } => step.refuses("cannot read directory entry: "@ + error@),
            Event::Entry { name } => if entries@.len() == max {
                step.refuses(number_message("directory contains more than "@, max as nat, " entries"@))
            } else {
                waits(ListPhase::Inspecting(entries, name))
            },
            Event::NoEntry => {
                &&& step matches Step::Done(Ok(Output::Entries(sorted)))
                &&& in_order(sorted@)
                &&& same_entries(sorted@, entries@)
                &&& sorted@.len() == entries@.len()
            },
            _ => waits(phase),
        },
        ListPhase::Inspecting(entries, name) => match event {
            Event::Failed { error } => step.refuses("cannot inspect entry: "@ + error@),
            Event::EntryType { is_dir, is_file, is_symlink } => {
                &&& step matches Step::Wait(Task::List { path: p, phase: ListPhase::Next(more) })
                &&& p == path
                &&& more@.len() == entries@.len() + 1
                &&& more@.drop_last() == entries@
                &&& more@.last().name == name
                &&& more@.last().kind@ == kind_of(is_dir, is_file, is_symlink)
            },
            _ => waits(phase),
        },
    }
}

/// Whether `step` follows when `event` comes in the creation of the directory `path`.
pub open spec fn create_next(step: Step, path: RelPath, phase: CreatePhase, event: Event) -> bool {
    let waits = |p: CreatePhase| step == Step::Wait(Task::CreateDir { path, phase: p });
    match phase {
        CreatePhase::Walking(n) => match walk_next(path@, n as int, event) {
            WalkNext::Inspect(m) => waits(CreatePhase::Walking(m as usize)),
            WalkNext::Clear => waits(CreatePhase::Creating),
            WalkNext::Refused(message) => step.refuses(message),
        },
        CreatePhase::Creating => match event {
            Event::Failed { error } => step.refuses("cannot create directory: "@ + error@),
            Event::Done => step matches Step::Done(Ok(Output::Text(text))) && text@
                == "created directory "@ + displayed(path@),
            _ => waits(phase),
        },
    }
}

/// Whether `step` follows when `event` comes in a task.
pub open spec fn task_next(step: Step, server: FilesystemServer, task: Task, event: Event) -> bool {
    match task {
        Task::Read { purpose, path, phase } => match read_next(
            server.max_file_bytes,
            path@,
            phase,
            event,
        ) {
            ReadNext::Wait(p) => step == Step::Wait(Task::Read { purpose, path, phase: p }),
            ReadNext::Refused(message) => step.refuses(message),
            ReadNext::Read(bytes) => answers_read(step, server, purpose, path@, bytes),
        },
        Task::Write { job, phase } => {
            let next = write_next(server.max_file_bytes, job, phase, event);
            match step {
                Step::Wait(Task::Write { job: j, phase: p }) => j == job && WriteStep::Wait(p).agrees(
                    next,
                    job,
                ),
                Step::Done(Ok(Output::Written(result))) => WriteStep::Written(result).agrees(next, job),
                Step::Done(Err(message)) => WriteStep::Refused(message).agrees(next, job),
                _ => false,
            }
        },
        Task::List { path, phase } => list_next(step, server, path, phase, event),
        Task::CreateDir { path, phase } => create_next(step, path, phase, event),
    }
}

/// What is asked of the disk in a task.
pub open spec fn task_action(server: FilesystemServer, task: Task, action: Action) -> bool {
    match task {
        Task::Read { path, phase, .. } => read_action(server.max_file_bytes, path@, phase, action),
        Task::Write { job, phase } => write_action(server.max_file_bytes, job, phase, action),
        Task::List { path, phase } => match phase {
            ListPhase::Walking(n) => action matches Action::Inspect { path: p } && p@ == path@.take(
                n as int,
            ),
            ListPhase::Opening => action matches Action::OpenDir { path: p } && p@ == path@,
            ListPhase::Listing => action == Action::ListDir,
            ListPhase::Next(_) => action == Action::NextEntry,
            ListPhase::Inspecting(_, _) => action == Action::InspectEntry,
        },
        Task::CreateDir { path, phase } => match phase {
            CreatePhase::Walking(n) => action matches Action::Inspect { path: p } && p@
                == path@.take(n as int),
            CreatePhase::Creating => action matches Action::CreateDirs { path: p } && p@ == path@,
        },
    }
}

} // verus!
