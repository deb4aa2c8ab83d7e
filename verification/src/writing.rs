//! Writing a file: a new one directly, an existing one by way of a temporary file that takes its
//! place in one step.

use vstd::prelude::*;
use vstd::utf8::encode_utf8;
use crate::content::WriteResult;
use crate::messages::{
    message_about, size_message, size_message_text, stale_message, stale_message_text,
    stale_missing_message,
};
use crate::paths::{confined, displayed, temp_path, RelPath};
use crate::protocol::{Action, Event};
use crate::reading::{read_action, read_next, ReadNext, ReadPhase, ReadStep};
use crate::revision::{revision, revision_of};
use crate::server::FilesystemServer;
use crate::text::{is_hex_digit, same_text};
use crate::walk::{walk_next, WalkNext, WalkStep};

verus! {

/// Whether `id` is a random identifier in its usual notation: groups of 8, 4, 4, 4 and 12
/// lower-case hexadecimal digits, joined by hyphens, with the marks of a random one.
pub open spec fn is_id(id: Seq<char>) -> bool {
    &&& id.len() == 36
    &&& forall|i: int|
        0 <= i < 36 ==> if i == 8 || i == 13 || i == 18 || i == 23 {
            #[trigger] id[i] == '-'
        } else {
            is_hex_digit(id[i])
        }
    &&& id[14] == '4'
    &&& id[19] == '8' || id[19] == '9' || id[19] == 'a' || id[19] == 'b'
}

/// Calls `uuid::Uuid::new_v4` and writes the identifier out as its `Display` does. It is a random
/// one, so nothing more than its form is claimed. The call panics where the system has no random
/// bytes to give.
#[verifier::external_body]
fn random_id() -> (id: String)
    ensures
        is_id(id@),
{
    uuid::Uuid::new_v4().to_string()
}

/// Whether `temp` is a temporary file that stands in for `path`.
pub open spec fn is_temp_for(temp: Seq<Seq<char>>, path: Seq<Seq<char>>) -> bool {
    exists|id: Seq<char>| is_id(id) && temp == #[trigger] temp_path(path, id)
}

/// A temporary file is beside the file that it stands in for, and its name is that file's with a dot
/// before it and a random identifier behind.
pub proof fn law_temporary_file_is_beside(temp: Seq<Seq<char>>, path: Seq<Seq<char>>)
    requires
        path.len() > 0,
    ensures
        is_temp_for(temp, path) ==> {
            &&& temp.len() == path.len()
            &&& temp.drop_last() == path.drop_last()
            &&& exists|id: Seq<char>|
                is_id(id) && temp.last() == #[trigger] ("."@ + path.last() + ".mcp-"@ + id
                    + ".tmp"@)
        },
{
    if is_temp_for(temp, path) {
        let id = choose|id: Seq<char>| is_id(id) && temp == #[trigger] temp_path(path, id);
        assert(temp.drop_last() =~= path.drop_last());
        assert(temp.last() == "."@ + path.last() + ".mcp-"@ + id + ".tmp"@);
    }
}

/// A file that is to be written: where, what, whether an existing file may be replaced, and which
/// revision it must have then.
#[derive(Debug)]
pub struct WriteJob {
    pub path: RelPath,
    pub content: String,
    pub overwrite: bool,
    pub expected: Option<String>,
}

impl WriteJob {
    /// The bytes that are to be written.
    pub open spec fn bytes(&self) -> Seq<u8> {
        encode_utf8(self.content@)
    }
}

/// How far the replacement of a file by a temporary file has come: what is being waited for.
#[derive(Debug, Clone, Copy)]
pub enum TempPhase {
    /// The temporary file, to be created.
    Creating,
    /// The content, to be written to it.
    Writing,
    /// The content, to reach the disk.
    Syncing,
    /// What the file holds now that is to be replaced.
    Rechecking(ReadPhase),
    /// The temporary file, to take the file's place.
    Renaming,
}

/// How far the writing of a file has come: what is being waited for.
#[derive(Debug)]
pub enum WritePhase {
    /// A look at the first parts of the path.
    Walking(usize),
    /// Its turn to write to the file.
    Locking,
    /// What the file holds.
    Checking(ReadPhase),
    /// The new file, to be created.
    Creating,
    /// The content, to be written to it.
    Writing,
    /// The content, to reach the disk.
    Syncing,
    /// A temporary file, on its way to replace the file.
    Replacing(RelPath, TempPhase),
    /// A temporary file, to be removed before the writing is refused.
    Discarding(RelPath, String),
}

/// What follows in the writing of a file.
pub ghost enum WriteNext {
    Wait(WritePhase),
    /// Start on a temporary file.
    Stage,
    /// Remove the temporary file, and refuse.
    Discard(RelPath, Seq<char>),
    Written,
    Refused(Seq<char>),
}

/// What follows when nothing speaks against the writing any more but the size of the content.
pub open spec fn begin_writing(max: u64, job: WriteJob) -> WriteNext {
    if job.bytes().len() > max {
        WriteNext::Refused(size_message("content"@, job.bytes().len(), max as nat))
    } else if !job.overwrite {
        WriteNext::Wait(WritePhase::Creating)
    } else {
        WriteNext::Stage
    }
}

/// The message with which the writing is refused if a look at the file ends in `read`.
pub open spec fn stale_refusal(expected: Seq<char>, read: ReadNext) -> Option<Seq<char>> {
    match read {
        ReadNext::Wait(_) => None,
        ReadNext::Refused(_) => Some(stale_missing_message()),
        ReadNext::Read(bytes) => if revision_of(bytes) != expected {
            Some(stale_message(expected, revision_of(bytes)))
        } else {
            None
        },
    }
}

/// What follows when `event` comes in the replacement of a file by `temp`.
pub open spec fn replace_next(
    max: u64,
    job: WriteJob,
    temp: RelPath,
    phase: TempPhase,
    event: Event,
) -> WriteNext {
    let stay = WriteNext::Wait(WritePhase::Replacing(temp, phase));
    match phase {
        TempPhase::Creating => match event {
            Event::Failed { error } => WriteNext::Discard(temp, "cannot replace file: "@ + error@),
            Event::Done => WriteNext::Wait(WritePhase::Replacing(temp, TempPhase::Writing)),
            _ => stay,
        },
        TempPhase::Writing => match event {
            Event::Failed { error } => WriteNext::Discard(temp, "cannot replace file: "@ + error@),
            Event::Done => WriteNext::Wait(WritePhase::Replacing(temp, TempPhase::Syncing)),
            _ => stay,
        },
        TempPhase::Syncing => match event {
            Event::Failed { error } => WriteNext::Discard(temp, "cannot replace file: "@ + error@),
            Event::Done => WriteNext::Wait(
                WritePhase::Replacing(
                    temp,
                    if job.expected is Some {
                        TempPhase::Rechecking(ReadPhase::Walking(1))
                    } else {
                        TempPhase::Renaming
                    },
                ),
            ),
            _ => stay,
        },
        TempPhase::Rechecking(reading) => {
            let read = read_next(max, job.path@, reading, event);
            match stale_refusal(job.expected->Some_0@, read) {
                Some(message) => WriteNext::Discard(temp, message),
                None => WriteNext::Wait(
                    WritePhase::Replacing(
                        temp,
                        match read {
                            ReadNext::Wait(p) => TempPhase::Rechecking(p),
                            _ => TempPhase::Renaming,
                        },
                    ),
                ),
            }
        },
        TempPhase::Renaming => match event {
            Event::Failed { error } => WriteNext::Discard(temp, "cannot replace file: "@ + error@),
            Event::Done => WriteNext::Written,
            _ => stay,
        },
    }
}

/// What follows when `event` comes in the writing of a file with a limit of `max` bytes.
pub open spec fn write_next(
    max: u64,
    job: WriteJob,
    phase: WritePhase,
    event: Event,
) -> WriteNext {
    match phase {
        WritePhase::Walking(n) => match walk_next(job.path@, n as int, event) {
            WalkNext::Inspect(m) => WriteNext::Wait(WritePhase::Walking(m as usize)),
            WalkNext::Clear => WriteNext::Wait(WritePhase::Locking),
            WalkNext::Refused(message) => WriteNext::Refused(message),
        },
        WritePhase::Locking => if !(event is Done) {
            WriteNext::Wait(phase)
        } else if job.expected is Some {
            WriteNext::Wait(WritePhase::Checking(ReadPhase::Walking(1)))
        } else {
            begin_writing(max, job)
        },
        WritePhase::Checking(reading) => {
            let read = read_next(max, job.path@, reading, event);
            match stale_refusal(job.expected->Some_0@, read) {
                Some(message) => WriteNext::Refused(message),
                None => match read {
                    ReadNext::Wait(p) => WriteNext::Wait(WritePhase::Checking(p)),
                    _ => begin_writing(max, job),
                },
            }
        },
        WritePhase::Creating => match event {
            Event::Failed { error } => WriteNext::Refused(
                "cannot create file (already exists?): "@ + error@,
            ),
            Event::Done => WriteNext::Wait(WritePhase::Writing),
            _ => WriteNext::Wait(phase),
        },
        WritePhase::Writing => match event {
            Event::Failed { error } => WriteNext::Refused("cannot write file: "@ + error@),
            Event::Done => WriteNext::Wait(WritePhase::Syncing),
            _ => WriteNext::Wait(phase),
        },
        WritePhase::Syncing => match event {
            Event::Failed { error } => WriteNext::Refused("cannot sync file: "@ + error@),
            Event::Done => WriteNext::Written,
            _ => WriteNext::Wait(phase),
        },
        WritePhase::Replacing(temp, replacing) => replace_next(max, job, temp, replacing, event),
        WritePhase::Discarding(_, message) => match event {
            Event::Done => WriteNext::Refused(message@),
            Event::Failed { .. } => WriteNext::Refused(message@),
            _ => WriteNext::Wait(phase),
        },
    }
}

/// What follows in the writing of a file.
#[derive(Debug)]
pub enum WriteStep {
    /// Wait for what the phase says.
    Wait(WritePhase),
    /// The file was written.
    Written(WriteResult),
    /// The writing is refused.
    Refused(String),
}

/// Whether `result` tells of the file that `job` wrote.
pub open spec fn describes_write(result: WriteResult, job: WriteJob) -> bool {
    &&& result.path@ == displayed(job.path@)
    &&& result.size_bytes == job.bytes().len()
    &&& result.revision@ == revision_of(job.bytes())
}

impl WriteStep {
    /// Whether this is what `next` says.
    pub open spec fn agrees(self, next: WriteNext, job: WriteJob) -> bool {
        match next {
            WriteNext::Wait(phase) => self == WriteStep::Wait(phase),
            WriteNext::Stage => {
                &&& self matches WriteStep::Wait(WritePhase::Replacing(temp, phase))
                &&& phase == TempPhase::Creating
                &&& is_temp_for(temp@, job.path@)
            },
            WriteNext::Discard(temp, message) => {
                &&& self matches WriteStep::Wait(WritePhase::Discarding(t, m))
                &&& t == temp
                &&& m@ == message
            },
            WriteNext::Written => self matches WriteStep::Written(result) && describes_write(
                result,
                job,
            ),
            WriteNext::Refused(message) => self matches WriteStep::Refused(m) && m@ == message,
        }
    }
}

impl WritePhase {
    /// Whether the writing that `job` asks for can be in this phase, with a limit of `max` bytes.
    /// Only a file that may be replaced is, and nothing is written that is too large.
    pub open spec fn fits(self, max: u64, job: WriteJob) -> bool {
        &&& 0 < job.path@.len() <= usize::MAX
        &&& confined(job.path@)
        &&& match self {
            WritePhase::Walking(n) => 1 <= n <= job.path@.len(),
            WritePhase::Locking => true,
            WritePhase::Checking(reading) => job.expected is Some && reading.fits(job.path@),
            WritePhase::Creating | WritePhase::Writing | WritePhase::Syncing => {
                &&& !job.overwrite
                &&& job.bytes().len() <= max
            },
            WritePhase::Replacing(temp, phase) => {
                &&& job.overwrite
                &&& job.bytes().len() <= max
                &&& is_temp_for(temp@, job.path@)
                &&& phase matches TempPhase::Rechecking(reading) ==> job.expected is Some
                    && reading.fits(job.path@)
            },
            WritePhase::Discarding(temp, _) => {
                &&& job.overwrite
                &&& is_temp_for(temp@, job.path@)
            },
        }
    }
}

/// What is asked of the disk in a phase of the writing that `job` asks for.
pub open spec fn write_action(max: u64, job: WriteJob, phase: WritePhase, action: Action) -> bool {
    match phase {
        WritePhase::Walking(n) => action matches Action::Inspect { path } && path@
            == job.path@.take(n as int),
        WritePhase::Locking => action matches Action::Lock { path } && path@ == job.path@,
        WritePhase::Checking(reading) => read_action(max, job.path@, reading, action),
        WritePhase::Creating => action matches Action::CreateFile { path } && path@ == job.path@,
        WritePhase::Writing => action matches Action::WriteFile { content } && content@
            == job.content@,
        WritePhase::Syncing => action == Action::SyncFile,
        WritePhase::Replacing(temp, TempPhase::Creating) => action matches Action::CreateFile {
            path,
        } && path@ == temp@,
        WritePhase::Replacing(temp, TempPhase::Writing) => action matches Action::WriteFile {
            content,
        } && content@ == job.content@,
        WritePhase::Replacing(temp, TempPhase::Syncing) => action == Action::SyncFile,
        WritePhase::Replacing(temp, TempPhase::Rechecking(reading)) => read_action(
            max,
            job.path@,
            reading,
            action,
        ),
        WritePhase::Replacing(temp, TempPhase::Renaming) => action matches Action::Rename {
            from,
            to,
        } && from@ == temp@ && to@ == job.path@,
        WritePhase::Discarding(temp, _) => action matches Action::RemoveFile { path } && path@
            == temp@,
    }
}

impl FilesystemServer {
    /// What to ask of the disk in a phase of the writing that `job` asks for.
    pub fn write_action(&self, job: &WriteJob, phase: &WritePhase) -> (action: Action)
        requires
            phase.fits(self.max_file_bytes, *job),
        ensures
            write_action(self.max_file_bytes, *job, *phase, action),
    {
        match phase {
            WritePhase::Walking(n) => Action::Inspect { path: job.path.first(*n) },
            WritePhase::Locking => Action::Lock { path: job.path.copy() },
            WritePhase::Checking(reading) => self.read_action(&job.path, *reading),
            WritePhase::Creating => Action::CreateFile { path: job.path.copy() },
            WritePhase::Writing => Action::WriteFile { content: job.content.clone() },
            WritePhase::Syncing => Action::SyncFile,
            WritePhase::Replacing(temp, replacing) => match replacing {
                TempPhase::Creating => Action::CreateFile { path: temp.copy() },
                TempPhase::Writing => Action::WriteFile { content: job.content.clone() },
                TempPhase::Syncing => Action::SyncFile,
                TempPhase::Rechecking(reading) => self.read_action(&job.path, *reading),
                TempPhase::Renaming => Action::Rename { from: temp.copy(), to: job.path.copy() },
            },
            WritePhase::Discarding(temp, _) => Action::RemoveFile { path: temp.copy() },
        }
    }

    fn begin_writing(&self, job: &WriteJob) -> (step: WriteStep)
        requires
            0 < job.path@.len() <= usize::MAX,
            confined(job.path@),
        ensures
            step.agrees(begin_writing(self.max_file_bytes, *job), *job),
            step matches WriteStep::Wait(phase) ==> phase.fits(self.max_file_bytes, *job),
    {
        let len: u64 = job.content.as_str().as_bytes().len() as u64;
        if len > self.max_file_bytes {
            WriteStep::Refused(size_message_text("content", len, self.max_file_bytes))
        } else if !job.overwrite {
            WriteStep::Wait(WritePhase::Creating)
        } else {
            let id = random_id();
            proof {
                assert forall|i: int| 0 <= i < id@.len() implies id@[i] != '/' && id@[i] != '\0' by {
                    if !(i == 8 || i == 13 || i == 18 || i == 23) {
                        assert(is_hex_digit(id@[i]));
                    }
                }
            }
            let temp = job.path.temp(id.as_str());
            assert(is_temp_for(temp@, job.path@));
            WriteStep::Wait(WritePhase::Replacing(temp, TempPhase::Creating))
        }
    }

    /// What a look at the file says against the writing, if it is over.
    fn stale_refusal(expected: &str, read: &ReadStep) -> (refusal: Option<String>)
        ensures
            match stale_refusal(expected@, read@) {
                Some(message) => refusal matches Some(m) && m@ == message,
                None => refusal is None,
            },
    {
        match read {
            ReadStep::Wait(_) => None,
            ReadStep::Refused(_) => Some(
                String::from_str("stale_revision: target file does not exist"),
            ),
            ReadStep::Read(bytes) => {
                let actual = revision(bytes.as_slice());
                if same_text(actual.as_str(), expected) {
                    None
                } else {
                    Some(stale_message_text(expected, actual.as_str()))
                }
            },
        }
    }

    fn written(job: &WriteJob) -> (step: WriteStep)
        ensures
            step.agrees(WriteNext::Written, *job),
    {
        let bytes: &[u8] = job.content.as_str().as_bytes();
        WriteStep::Written(
            WriteResult {
                path: job.path.display(),
                size_bytes: bytes.len(),
                revision: revision(bytes),
            },
        )
    }

    fn discard(temp: RelPath, event: Event) -> (step: WriteStep)
        requires
            event is Failed,
        ensures
            step matches WriteStep::Wait(WritePhase::Discarding(t, m)) && t == temp && m@
                == "cannot replace file: "@ + event->error@,
    {
        let message = match event {
            Event::Failed { error } => message_about("cannot replace file: ", error.as_str()),
            _ => String::new(),
        };
        WriteStep::Wait(WritePhase::Discarding(temp, message))
    }

    fn replace(&self, job: &WriteJob, temp: RelPath, phase: TempPhase, event: Event) -> (step:
        WriteStep)
        requires
            WritePhase::Replacing(temp, phase).fits(self.max_file_bytes, *job),
        ensures
            step.agrees(replace_next(self.max_file_bytes, *job, temp, phase, event), *job),
            step matches WriteStep::Wait(p) ==> p.fits(self.max_file_bytes, *job),
    {
        match phase {
            TempPhase::Creating => match event {
                Event::Failed { .. } => Self::discard(temp, event),
                Event::Done => WriteStep::Wait(WritePhase::Replacing(temp, TempPhase::Writing)),
                _ => WriteStep::Wait(WritePhase::Replacing(temp, phase)),
            },
            TempPhase::Writing => match event {
                Event::Failed { .. } => Self::discard(temp, event),
                Event::Done => WriteStep::Wait(WritePhase::Replacing(temp, TempPhase::Syncing)),
                _ => WriteStep::Wait(WritePhase::Replacing(temp, phase)),
            },
            TempPhase::Syncing => match event {
                Event::Failed { .. } => Self::discard(temp, event),
                Event::Done => {
                    let next = match &job.expected {
                        Some(_) => TempPhase::Rechecking(ReadPhase::Walking(1)),
                        None => TempPhase::Renaming,
                    };
                    WriteStep::Wait(WritePhase::Replacing(temp, next))
                },
                _ => WriteStep::Wait(WritePhase::Replacing(temp, phase)),
            },
            TempPhase::Rechecking(reading) => {
                let read = self.read_bytes(&job.path, reading, event);
                let expected: &str = match &job.expected {
                    Some(expected) => expected.as_str(),
                    None => "",
                };
                match Self::stale_refusal(expected, &read) {
                    Some(message) => WriteStep::Wait(WritePhase::Discarding(temp, message)),
                    None => {
                        let next = match read {
                            ReadStep::Wait(p) => TempPhase::Rechecking(p),
                            _ => TempPhase::Renaming,
                        };
                        WriteStep::Wait(WritePhase::Replacing(temp, next))
                    },
                }
            },
            TempPhase::Renaming => match event {
                Event::Failed { .. } => Self::discard(temp, event),
                Event::Done => Self::written(job),
                _ => WriteStep::Wait(WritePhase::Replacing(temp, phase)),
            },
        }
    }

    /// What follows when `event` comes in a phase of the writing that `job` asks for.
    pub fn write_step(&self, job: &WriteJob, phase: WritePhase, event: Event) -> (step: WriteStep)
        requires
            phase.fits(self.max_file_bytes, *job),
        ensures
            step.agrees(write_next(self.max_file_bytes, *job, phase, event), *job),
            step matches WriteStep::Wait(p) ==> p.fits(self.max_file_bytes, *job),
    {
        match phase {
            WritePhase::Walking(n) => match Self::ensure_no_symlink_components(
                &job.path,
                n,
                &event,
            ) {
                WalkStep::Inspect(m) => WriteStep::Wait(WritePhase::Walking(m)),
                WalkStep::Clear => WriteStep::Wait(WritePhase::Locking),
                WalkStep::Refused(message) => WriteStep::Refused(message),
            },
            WritePhase::Locking => match event {
                Event::Done => match &job.expected {
                    Some(_) => WriteStep::Wait(WritePhase::Checking(ReadPhase::Walking(1))),
                    None => self.begin_writing(job),
                },
                _ => WriteStep::Wait(WritePhase::Locking),
            },
            WritePhase::Checking(reading) => {
                let read = self.read_bytes(&job.path, reading, event);
                let expected: &str = match &job.expected {
                    Some(expected) => expected.as_str(),
                    None => "",
                };
                match Self::stale_refusal(expected, &read) {
                    Some(message) => WriteStep::Refused(message),
                    None => match read {
                        ReadStep::Wait(p) => WriteStep::Wait(WritePhase::Checking(p)),
                        _ => self.begin_writing(job),
                    },
                }
            },
            WritePhase::Creating => match event {
                Event::Failed { error } => WriteStep::Refused(
                    message_about("cannot create file (already exists?): ", error.as_str()),
                ),
                Event::Done => WriteStep::Wait(WritePhase::Writing),
                _ => WriteStep::Wait(phase),
            },
            WritePhase::Writing => match event {
                Event::Failed { error } => WriteStep::Refused(
                    message_about("cannot write file: ", error.as_str()),
                ),
                Event::Done => WriteStep::Wait(WritePhase::Syncing),
                _ => WriteStep::Wait(phase),
            },
            WritePhase::Syncing => match event {
                Event::Failed { error } => WriteStep::Refused(
                    message_about("cannot sync file: ", error.as_str()),
                ),
                Event::Done => Self::written(job),
                _ => WriteStep::Wait(phase),
            },
            WritePhase::Replacing(temp, replacing) => self.replace(job, temp, replacing, event),
            WritePhase::Discarding(temp, message) => match event {
                Event::Done => WriteStep::Refused(message),
                Event::Failed { .. } => WriteStep::Refused(message),
                _ => WriteStep::Wait(WritePhase::Discarding(temp, message)),
            },
        }
    }
}

} // verus!
