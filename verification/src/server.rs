//! The server: its settings, the requests that it takes, and how each of them goes on.

use vstd::prelude::*;
use vstd::utf8::encode_utf8;
use crate::content::{
    metadata_of, range_of, search_of, whole_text, PatchTextFileArgs, ReadRangeArgs, SearchTextArgs,
};
use crate::listing::{entry_kind, sort_entries, DirectoryEntry};
use crate::messages::{
    filesystem_error, message_about, number_message_text, stale_prefix, starts_with,
    FilesystemError,
};
use crate::paths::{cleaned, RelPath};
use crate::protocol::{Action, Event};
use crate::reading::{ReadPhase, ReadStep};
use crate::search::{MAX_SEARCH_LINE_BYTES, MAX_SEARCH_MATCHES};
use crate::tasks::{
    answers_read, create_next, list_next, starts_write, task_action, task_next, CreatePhase,
    ListPhase, Output, Purpose, Step, Task,
};
use crate::text::{decimal, push_decimal};
use crate::walk::WalkStep;
use crate::writing::{WriteJob, WritePhase, WriteStep};

verus! {

/// A server that exposes one directory, as far as its decisions go: the settings that they depend
/// on.
#[derive(Debug, Clone, Copy)]
pub struct FilesystemServer {
    /// Whether every tool that changes the filesystem is disabled.
    pub read_only: bool,
    /// How many bytes a file may have that is read or written.
    pub max_file_bytes: u64,
    /// How many entries one listing may have.
    pub max_dir_entries: usize,
}

/// Whether `step` starts to read the file `raw`, or refuses to.
pub open spec fn starts_read(step: Step, raw: Seq<char>, purpose: Purpose) -> bool {
    match cleaned(raw, false) {
        Err(message) => step.refuses(message),
        Ok(parts) => {
            &&& step matches Step::Wait(Task::Read { purpose: p, path, phase })
            &&& p == purpose
            &&& path@ == parts
            &&& phase == ReadPhase::Walking(1)
        },
    }
}

/// Whether `step` starts to list the directory `raw`, or refuses to.
pub open spec fn starts_list(step: Step, raw: Seq<char>) -> bool {
    match cleaned(raw, true) {
        Err(message) => step.refuses(message),
        Ok(parts) => {
            &&& step matches Step::Wait(Task::List { path, phase })
            &&& path@ == parts
            &&& phase == (if parts.len() == 0 {
                ListPhase::Opening
            } else {
                ListPhase::Walking(1)
            })
        },
    }
}

/// Whether `step` starts to create the directory `raw`, or refuses to.
pub open spec fn starts_create(step: Step, server: FilesystemServer, raw: Seq<char>) -> bool {
    if server.read_only {
        step.refuses("server is running in read-only mode"@)
    } else {
        match cleaned(raw, false) {
            Err(message) => step.refuses(message),
            Ok(parts) => {
                &&& step matches Step::Wait(Task::CreateDir { path, phase })
                &&& path@ == parts
                &&& phase == CreatePhase::Walking(1)
            },
        }
    }
}

/// Whether `step` goes on with a task that `server` can have, if it goes on.
pub open spec fn goes_on(step: Step, server: FilesystemServer) -> bool {
    step matches Step::Wait(task) ==> task.fits(server)
}

impl FilesystemServer {
    /// A server with these settings, if what it is to expose is a directory.
    pub fn new(
        root_is_dir: bool,
        read_only: bool,
        max_file_bytes: u64,
        max_dir_entries: usize,
    ) -> (r: Result<FilesystemServer, String>)
        ensures
            if root_is_dir {
                r == Ok::<_, String>(
                    FilesystemServer { read_only, max_file_bytes, max_dir_entries },
                )
            } else {
                r matches Err(m) && m@ == "root is not a directory"@
            },
    {
        if root_is_dir {
            Ok(FilesystemServer { read_only, max_file_bytes, max_dir_entries })
        } else {
            Err(String::from_str("root is not a directory"))
        }
    }

    /// Whether this server may change the filesystem.
    pub fn ensure_writable(&self) -> (r: Result<(), String>)
        ensures
            if self.read_only {
                r matches Err(m) && m@ == "server is running in read-only mode"@
            } else {
                r is Ok
            },
    {
        if self.read_only {
            Err(String::from_str("server is running in read-only mode"))
        } else {
            Ok(())
        }
    }

    fn start_read(&self, raw_path: &str, purpose: Purpose) -> (step: Step)
        requires
            purpose matches Purpose::Search(args) ==> args.query@.len() > 0,
        ensures
            starts_read(step, raw_path@, purpose),
            goes_on(step, *self),
    {
        match Self::clean_path(raw_path, false) {
            Err(message) => Step::Done(Err(message)),
            Ok(path) => Step::Wait(Task::Read { purpose, path, phase: ReadPhase::Walking(1) }),
        }
    }

    /// Starts to read the text of a file.
    pub fn read_text(&self, raw_path: &str) -> (step: Step)
        ensures
            starts_read(step, raw_path@, Purpose::Text),
            goes_on(step, *self),
    {
        self.start_read(raw_path, Purpose::Text)
    }

    /// Starts to find out a file's size and revision.
    pub fn metadata(&self, raw_path: &str) -> (step: Step)
        ensures
            starts_read(step, raw_path@, Purpose::Metadata),
            goes_on(step, *self),
    {
        self.start_read(raw_path, Purpose::Metadata)
    }

    /// Starts to read a part of a file's text. It may not ask for nothing, nor for more than a file
    /// may have.
    pub fn read_range(&self, args: ReadRangeArgs) -> (step: Step)
        ensures
            if args.max_bytes == 0 || args.max_bytes > self.max_file_bytes {
                step.refuses("max_bytes must be between 1 and "@ + decimal(self.max_file_bytes as nat))
            } else {
                starts_read(step, args.path@, Purpose::Range(args))
            },
            goes_on(step, *self),
    {
        if args.max_bytes == 0 || args.max_bytes > self.max_file_bytes {
            let mut message: String = String::from_str("max_bytes must be between 1 and ");
            push_decimal(&mut message, self.max_file_bytes);
            return Step::Done(Err(message));
        }
        let path = args.path.clone();
        self.start_read(path.as_str(), Purpose::Range(args))
    }

    /// Starts a search in a file. The query and the number of matches are bounded.
    pub fn search_text_impl(&self, args: SearchTextArgs) -> (step: Step)
        ensures
            ({
                let query_len = encode_utf8(args.query@).len();
                if args.query@.len() == 0 || query_len > MAX_SEARCH_LINE_BYTES {
                    step.refuses("query must be between 1 and 4096 bytes"@)
                } else if args.max_matches == 0 || args.max_matches > MAX_SEARCH_MATCHES {
                    step.refuses("max_matches must be between 1 and 100"@)
                } else {
                    starts_read(step, args.path@, Purpose::Search(args))
                }
            }),
            goes_on(step, *self),
    {
        if args.query.as_str().is_empty() || args.query.as_str().as_bytes().len()
            > MAX_SEARCH_LINE_BYTES {
            return Step::Done(Err(String::from_str("query must be between 1 and 4096 bytes")));
        }
        if args.max_matches == 0 || args.max_matches > MAX_SEARCH_MATCHES {
            return Step::Done(Err(String::from_str("max_matches must be between 1 and 100")));
        }
        let path = args.path.clone();
        self.start_read(path.as_str(), Purpose::Search(args))
    }

    /// Starts to patch a file: it is read first, and then written.
    pub fn patch_text(&self, args: PatchTextFileArgs) -> (step: Step)
        ensures
            starts_read(step, args.path@, Purpose::Patch(args)),
            goes_on(step, *self),
    {
        let path = args.path.clone();
        self.start_read(path.as_str(), Purpose::Patch(args))
    }

    /// Starts to list a directory.
    pub fn list_dir(&self, raw_path: &str) -> (step: Step)
        ensures
            starts_list(step, raw_path@),
            goes_on(step, *self),
    {
        match Self::clean_path(raw_path, true) {
            Err(message) => Step::Done(Err(message)),
            Ok(path) => if path.len() == 0 {
                Step::Wait(Task::List { path, phase: ListPhase::Opening })
            } else {
                Step::Wait(Task::List { path, phase: ListPhase::Walking(1) })
            },
        }
    }

    /// Starts to list a directory, the exposed one where none is given.
    pub fn list_directory(&self, path: Option<&str>) -> (step: Step)
        ensures
            starts_list(step, match path {
                Some(raw) => raw@,
                None => "."@,
            }),
            goes_on(step, *self),
    {
        match path {
            Some(raw) => self.list_dir(raw),
            None => self.list_dir("."),
        }
    }

    /// Starts to write a file. An existing one is replaced only with `overwrite`, and, where a
    /// revision is expected, only while it has that revision.
    pub fn write_text(
        &self,
        raw_path: &str,
        content: String,
        overwrite: bool,
        expected_revision: Option<String>,
    ) -> (step: Step)
        ensures
            starts_write(
                step,
                *self,
                raw_path@,
                content@,
                overwrite,
                match expected_revision {
                    Some(expected) => Some(expected@),
                    None => None,
                },
            ),
            goes_on(step, *self),
    {
        match self.ensure_writable() {
            Err(message) => {
                return Step::Done(Err(message));
            },
            Ok(()) => {},
        }
        match Self::clean_path(raw_path, false) {
            Err(message) => Step::Done(Err(message)),
            Ok(path) => Step::Wait(
                Task::Write {
                    job: WriteJob { path, content, overwrite, expected: expected_revision },
                    phase: WritePhase::Walking(1),
                },
            ),
        }
    }

    /// Starts to create a directory.
    pub fn create_dir(&self, raw_path: &str) -> (step: Step)
        ensures
            starts_create(step, *self, raw_path@),
            goes_on(step, *self),
    {
        match self.ensure_writable() {
            Err(message) => {
                return Step::Done(Err(message));
            },
            Ok(()) => {},
        }
        match Self::clean_path(raw_path, false) {
            Err(message) => Step::Done(Err(message)),
            Ok(path) => Step::Wait(Task::CreateDir { path, phase: CreatePhase::Walking(1) }),
        }
    }

    /// What to ask of the disk in a task.
    pub fn action(&self, task: &Task) -> (action: Action)
        requires
            task.fits(*self),
        ensures
            task_action(*self, *task, action),
    {
        match task {
            Task::Read { purpose: _, path, phase } => self.read_action(path, *phase),
            Task::Write { job, phase } => self.write_action(job, phase),
            Task::List { path, phase } => match phase {
                ListPhase::Walking(n) => Action::Inspect { path: path.first(*n) },
                ListPhase::Opening => Action::OpenDir { path: path.copy() },
                ListPhase::Listing => Action::ListDir,
                ListPhase::Next(_) => Action::NextEntry,
                ListPhase::Inspecting(_, _) => Action::InspectEntry,
            },
            Task::CreateDir { path, phase } => match phase {
                CreatePhase::Walking(n) => Action::Inspect { path: path.first(*n) },
                CreatePhase::Creating => Action::CreateDirs { path: path.copy() },
            },
        }
    }

    /// What is answered when the file `path` turns out to hold `bytes`. A patch goes on with the
    /// writing of what it makes of them.
    pub fn answer_read(&self, purpose: Purpose, path: &RelPath, bytes: &[u8]) -> (step: Step)
        requires
            purpose matches Purpose::Search(args) ==> args.query@.len() > 0,
        ensures
            answers_read(step, *self, purpose, path@, bytes@),
            goes_on(step, *self),
    {
        match purpose {
            Purpose::Text => match whole_text(bytes) {
                Ok(text) => Step::Done(Ok(Output::Text(text))),
                Err(message) => Step::Done(Err(message)),
            },
            Purpose::Metadata => Step::Done(Ok(Output::Metadata(metadata_of(path, bytes)))),
            Purpose::Range(args) => match range_of(&args, path, bytes) {
                Ok(range) => Step::Done(Ok(Output::Range(range))),
                Err(message) => Step::Done(Err(message)),
            },
            Purpose::Search(args) => match search_of(&args, path, bytes) {
                Ok(result) => Step::Done(Ok(Output::Search(result))),
                Err(message) => Step::Done(Err(message)),
            },
            Purpose::Patch(args) => match self.patch_of(&args, bytes) {
                Ok(content) => {
                    let PatchTextFileArgs { path: raw_path, expected_revision, .. } = args;
                    self.write_text(raw_path.as_str(), content, true, Some(expected_revision))
                },
                Err(message) => Step::Done(Err(message)),
            },
        }
    }

    fn resume_list(&self, path: RelPath, phase: ListPhase, event: Event) -> (step: Step)
        requires
            (Task::List { path, phase }).fits(*self),
        ensures
            list_next(step, *self, path, phase, event),
            goes_on(step, *self),
    {
        match phase {
            ListPhase::Walking(n) => match Self::ensure_no_symlink_components(&path, n, &event) {
                WalkStep::Inspect(m) => Step::Wait(
                    Task::List { path, phase: ListPhase::Walking(m) },
                ),
                WalkStep::Clear => Step::Wait(Task::List { path, phase: ListPhase::Opening }),
                WalkStep::Refused(message) => Step::Done(Err(message)),
            },
            ListPhase::Opening => match event {
                Event::Failed { error } => Step::Done(
                    Err(message_about("cannot open directory: ", error.as_str())),
                ),
                Event::Done => Step::Wait(Task::List { path, phase: ListPhase::Listing }),
                _ => Step::Wait(Task::List { path, phase }),
            },
            ListPhase::Listing => match event {
                Event::Failed { error } => Step::Done(
                    Err(message_about("cannot list directory: ", error.as_str())),
                ),
                Event::Done => Step::Wait(Task::List { path, phase: ListPhase::Next(Vec::new()) }),
                _ => Step::Wait(Task::List { path, phase }),
            },
            ListPhase::Next(entries) => match event {
                Event::Failed { error } => Step::Done(
                    Err(message_about("cannot read directory entry: ", error.as_str())),
                ),
                Event::Entry { name } => if entries.len() == self.max_dir_entries {
                    Step::Done(
                        Err(
                            number_message_text(
                                "directory contains more than ",
                                self.max_dir_entries as u64,
                                " entries",
                            ),
                        ),
                    )
                } else {
                    Step::Wait(Task::List { path, phase: ListPhase::Inspecting(entries, name) })
                },
                Event::NoEntry => Step::Done(Ok(Output::Entries(sort_entries(entries)))),
                _ => Step::Wait(Task::List { path, phase: ListPhase::Next(entries) }),
            },
            ListPhase::Inspecting(entries, name) => match event {
                Event::Failed { error } => Step::Done(
                    Err(message_about("cannot inspect entry: ", error.as_str())),
                ),
                Event::EntryType { is_dir, is_file, is_symlink } => {
                    let mut more = entries;
                    more.push(
                        DirectoryEntry { name, kind: entry_kind(is_dir, is_file, is_symlink) },
                    );
                    assert(more@.drop_last() =~= entries@);
                    Step::Wait(Task::List { path, phase: ListPhase::Next(more) })
                },
                _ => Step::Wait(Task::List { path, phase: ListPhase::Inspecting(entries, name) }),
            },
        }
    }

    fn resume_create(&self, path: RelPath, phase: CreatePhase, event: Event) -> (step: Step)
        requires
            (Task::CreateDir { path, phase }).fits(*self),
        ensures
            create_next(step, path, phase, event),
            goes_on(step, *self),
    {
        match phase {
            CreatePhase::Walking(n) => match Self::ensure_no_symlink_components(&path, n, &event) {
                WalkStep::Inspect(m) => Step::Wait(
                    Task::CreateDir { path, phase: CreatePhase::Walking(m) },
                ),
                WalkStep::Clear => Step::Wait(
                    Task::CreateDir { path, phase: CreatePhase::Creating },
                ),
                WalkStep::Refused(message) => Step::Done(Err(message)),
            },
            CreatePhase::Creating => match event {
                Event::Failed { error } => Step::Done(
                    Err(message_about("cannot create directory: ", error.as_str())),
                ),
                Event::Done => Step::Done(
                    Ok(Output::Text(message_about("created directory ", path.display().as_str()))),
                ),
                _ => Step::Wait(Task::CreateDir { path, phase }),
            },
        }
    }

    /// What follows in a task when the disk has answered with `event`.
    pub fn resume(&self, task: Task, event: Event) -> (step: Step)
        requires
            task.fits(*self),
        ensures
            task_next(step, *self, task, event),
            goes_on(step, *self),
    {
        match task {
            Task::Read { purpose, path, phase } => match self.read_bytes(&path, phase, event) {
                ReadStep::Wait(p) => Step::Wait(Task::Read { purpose, path, phase: p }),
                ReadStep::Refused(message) => Step::Done(Err(message)),
                ReadStep::Read(bytes) => self.answer_read(purpose, &path, bytes.as_slice()),
            },
            Task::Write { job, phase } => match self.write_step(&job, phase, event) {
                WriteStep::Wait(p) => Step::Wait(Task::Write { job, phase: p }),
                WriteStep::Written(result) => Step::Done(Ok(Output::Written(result))),
                WriteStep::Refused(message) => Step::Done(Err(message)),
            },
            Task::List { path, phase } => self.resume_list(path, phase, event),
            Task::CreateDir { path, phase } => self.resume_create(path, phase, event),
        }
    }

    /// What the client is told at the end of a request.
    pub fn answer(outcome: Result<Output, String>) -> (r: Result<Output, FilesystemError>)
        ensures
            match outcome {
                Ok(output) => r == Ok::<_, FilesystemError>(output),
                Err(message) => {
                    &&& r matches Err(e)
                    &&& e.message@ == message@
                    &&& e.retryable == starts_with(message@, stale_prefix())
                    &&& e.code@ == (if e.retryable {
                        "stale_revision"@
                    } else {
                        "filesystem_error"@
                    })
                },
            },
    {
        match outcome {
            Ok(output) => Ok(output),
            Err(message) => Err(filesystem_error(message.as_str())),
        }
    }
}

} // verus!
