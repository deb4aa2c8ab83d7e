//! What an expected revision protects from: that a change is lost of which the writer does not know.

use vstd::prelude::*;
use crate::disk::{Disk, Run};
use crate::laws::reads::{free_of_links, law_reads_succeed, lemma_read_step};
use crate::laws::requests::{law_success_is_free_of_links, Request};
use crate::laws::writes::{first_job, law_write_takes_effect, lemma_write_run, write_state};
use crate::messages::{law_stale_messages_are_retryable, stale_message, stale_prefix, starts_with};
use crate::paths::{cleaned, law_clean_path_is_confined};
use crate::protocol::Event;
use crate::reading::ReadPhase;
use crate::revision::revision_of;
use crate::server::{starts_read, FilesystemServer};
use crate::tasks::{starts_write, task_next, Output, Purpose, Step, Task};
use crate::text::lemma_same_encoding;
use crate::writing::{TempPhase, WriteJob, WritePhase};

verus! {

/// Whether a file can be read and has the given revision.
pub open spec fn has_revision(
    disk: Disk,
    path: Seq<Seq<char>>,
    max: u64,
    revision: Seq<char>,
) -> bool {
    &&& disk.files.contains_key(path)
    &&& disk.files[path].len() <= max
    &&& revision_of(disk.files[path]) == revision
}

/// Whether every part of the path that was looked at could be looked at.
pub open spec fn inspects_all(run: Run) -> bool {
    forall|i: int|
        0 <= i < run.events.len() && run.actions[i] is Inspect ==> !(#[trigger] run.events[i]
            is Failed)
}

/// Whether a request is refused because of a revision.
pub open spec fn refused_as_stale(step: Step) -> bool {
    step matches Step::Done(Err(message)) && starts_with(message@, stale_prefix())
}

/// Whether a writing has not come so far that it could change anything, or is over.
spec fn harmless(step: Step) -> bool {
    match step {
        Step::Wait(Task::Write { phase, .. }) => phase is Walking || phase is Locking || phase
            is Checking,
        Step::Done(Err(_)) => true,
        _ => false,
    }
}

proof fn lemma_stale_run(run: Run, start: Disk, job: WriteJob, i: int)
    requires
        run.wf(),
        0 <= i < run.steps.len(),
        write_state(run.server, start, job, run.steps[0], run.disks[0]),
        run.steps[0] is Wait,
        harmless(run.steps[0]),
        job.expected is Some,
        !has_revision(start, job.path@, run.server.max_file_bytes, job.expected->Some_0@),
    ensures
        harmless(run.steps[i]),
        run.disks[i].files == start.files,
        run.steps[i] is Done && (run.steps[0]->Wait_0->Write_phase is Walking ==> free_of_links(
            start,
            job.path@,
        ) && inspects_all(run)) ==> refused_as_stale(run.steps[i]),
        run.steps[i] is Wait && run.steps[i]->Wait_0->Write_phase is Walking
            ==> run.steps[0]->Wait_0->Write_phase is Walking,
    decreases i,
{
    if i > 0 {
        let k = i - 1;
        lemma_stale_run(run, start, job, k);
        lemma_write_run(run, start, job, 0, k);
        assert(run.goes(k));
        if k > 0 {
            assert(run.goes(k - 1));
        }
        let expected = job.expected->Some_0@;
        let before = run.disks[k];
        let phase = run.steps[k]->Wait_0->Write_phase;
        law_stale_messages_are_retryable(
            expected,
            if before.files.contains_key(job.path@) {
                revision_of(before.files[job.path@])
            } else {
                seq![]
            },
        );
        match phase {
            WritePhase::Walking(n) => {
                if free_of_links(start, job.path@) {
                    assert(!start.links.contains(job.path@.take(n as int)));
                }
            },
            WritePhase::Checking(reading) => {
                lemma_read_step(
                    run.server.max_file_bytes,
                    job.path@,
                    reading,
                    run.actions[k],
                    run.events[k],
                    before,
                    run.disks[i],
                );
            },
            _ => {},
        }
    }
}

/// Where a revision is expected that the file does not have, or of a file that cannot be read, no
/// file is changed and the writing does not succeed. Unless the server is read-only or the path is
/// at fault, it is refused with a message by which the client knows to look at the file again.
pub proof fn law_stale_write_is_refused(
    run: Run,
    raw: Seq<char>,
    content: Seq<char>,
    overwrite: bool,
    expected: Seq<char>,
)
    requires
        run.wf(),
        starts_write(run.steps[0], run.server, raw, content, overwrite, Some(expected)),
        cleaned(raw, false) matches Ok(path) ==> !has_revision(
            run.before(),
            path,
            run.server.max_file_bytes,
            expected,
        ),
    ensures
        run.after().files == run.before().files,
        !(run.now() matches Step::Done(Ok(_))),
        ({
            &&& run.now() is Done
            &&& !run.server.read_only
            &&& cleaned(raw, false) matches Ok(path)
            &&& free_of_links(run.before(), path)
            &&& inspects_all(run)
        }) ==> refused_as_stale(run.now()),
{
    let last = run.steps.len() - 1;
    if run.server.read_only || cleaned(raw, false) is Err {
        if run.events.len() > 0 {
            assert(run.goes(0));
        }
    } else {
        law_clean_path_is_confined(raw, false);
        lemma_stale_run(run, run.before(), first_job(run.steps[0]), last);
    }
}

/// Of two writers that know the same revision of a file, only one has its way. The one whose turn
/// comes first replaces the file; when the turn of the other one comes, it is refused, whatever it
/// was to write, and no file is changed any more. (The first one is taken to change the revision.)
pub proof fn law_second_writer_is_refused(
    first: Run,
    second: Run,
    first_writer: WriteJob,
    second_writer: WriteJob,
)
    requires
        first.wf(),
        second.wf(),
        first.server == second.server,
        first.steps[0] == Step::Wait(Task::Write { job: first_writer, phase: WritePhase::Locking }),
        second.steps[0] == Step::Wait(Task::Write { job: second_writer, phase: WritePhase::Locking }),
        first_writer.path@ == second_writer.path@,
        first_writer.expected is Some,
        second_writer.expected is Some,
        first_writer.expected->Some_0@ == second_writer.expected->Some_0@,
        revision_of(first_writer.bytes()) != first_writer.expected->Some_0@,
        first.now() matches Step::Done(Ok(_)),
        second.before().files == first.after().files,
    ensures
        second.after().files == second.before().files,
        second.now() is Done ==> refused_as_stale(second.now()),
{
    lemma_write_run(first, first.before(), first_writer, 0, first.steps.len() - 1);
    let last = second.steps.len() - 1;
    assert(second.before().files[second_writer.path@] == first_writer.bytes());
    lemma_stale_run(second, second.before(), second_writer, last);
}

/// A file of which a revision is expected is replaced only right behind a look at it that found
/// that revision, whatever else has happened to the disk: the look is what the disk was asked for
/// last before it is asked to put the temporary file in the file's place.
pub proof fn law_replacement_follows_check(
    server: FilesystemServer,
    job: WriteJob,
    phase: WritePhase,
    event: Event,
    step: Step,
)
    requires
        task_next(step, server, Task::Write { job, phase }, event),
        job.expected is Some,
        step matches Step::Wait(Task::Write { phase: WritePhase::Replacing(_, TempPhase::Renaming), .. }),
    ensures
        ({
            ||| phase matches WritePhase::Replacing(_, TempPhase::Renaming)
            ||| {
                &&& phase matches WritePhase::Replacing(_, TempPhase::Rechecking(ReadPhase::Reading))
                &&& event matches Event::Bytes { bytes }
                &&& bytes@.len() <= server.max_file_bytes
                &&& revision_of(bytes@) == job.expected->Some_0@
            }
        }),
{
}

/// A writer that finds another revision than the expected one gives up, whenever it finds it: before
/// it starts, it is refused, and after that it has only its temporary file to remove first.
pub proof fn law_changed_file_is_not_replaced(
    server: FilesystemServer,
    job: WriteJob,
    phase: WritePhase,
    bytes: Vec<u8>,
    step: Step,
)
    requires
        task_next(step, server, Task::Write { job, phase }, Event::Bytes { bytes }),
        job.expected is Some,
        bytes@.len() <= server.max_file_bytes,
        revision_of(bytes@) != job.expected->Some_0@,
    ensures
        phase matches WritePhase::Checking(ReadPhase::Reading) ==> step.refuses(
            stale_message(job.expected->Some_0@, revision_of(bytes@)),
        ),
        phase matches WritePhase::Replacing(temp, TempPhase::Rechecking(ReadPhase::Reading)) ==> {
            &&& step matches Step::Wait(Task::Write { phase: WritePhase::Discarding(t, message), .. })
            &&& t == temp
            &&& message@ == stale_message(job.expected->Some_0@, revision_of(bytes@))
        },
{
}

/// What was written is what is read: after a writing that succeeded, the text of the file is the
/// content, unless something fails.
pub proof fn law_text_reads_back(
    writing: Run,
    reading: Run,
    raw: Seq<char>,
    content: Seq<char>,
    overwrite: bool,
    expected: Option<Seq<char>>,
)
    requires
        writing.wf(),
        reading.wf(),
        writing.server == reading.server,
        starts_write(writing.steps[0], writing.server, raw, content, overwrite, expected),
        writing.now() matches Step::Done(Ok(_)),
        reading.before() == writing.after(),
        starts_read(reading.steps[0], raw, Purpose::Text),
        reading.smooth(),
        reading.now() is Done,
    ensures
        reading.now() matches Step::Done(Ok(Output::Text(text))) && text@ == content,
{
    law_write_takes_effect(writing, raw, content, overwrite, expected);
    law_success_is_free_of_links(writing, Request::Write { raw, content, overwrite, expected });
    law_reads_succeed(reading, raw, Purpose::Text);
    vstd::utf8::encode_utf8_valid_utf8(content);
    let text = reading.now()->Done_0->Ok_0->Text_0;
    lemma_same_encoding(text@, content);
}

/// The revision that a writing reports is the one that the file has from then on.
pub proof fn law_revision_reads_back(
    writing: Run,
    reading: Run,
    raw: Seq<char>,
    content: Seq<char>,
    overwrite: bool,
    expected: Option<Seq<char>>,
)
    requires
        writing.wf(),
        reading.wf(),
        writing.server == reading.server,
        starts_write(writing.steps[0], writing.server, raw, content, overwrite, expected),
        writing.now() matches Step::Done(Ok(_)),
        reading.before() == writing.after(),
        starts_read(reading.steps[0], raw, Purpose::Metadata),
        reading.smooth(),
        reading.now() is Done,
    ensures
        ({
            &&& writing.now() matches Step::Done(Ok(Output::Written(result)))
            &&& reading.now() matches Step::Done(Ok(Output::Metadata(metadata)))
            &&& metadata.revision@ == result.revision@
            &&& metadata.path@ == result.path@
            &&& metadata.size_bytes == result.size_bytes
        }),
{
    law_write_takes_effect(writing, raw, content, overwrite, expected);
    law_success_is_free_of_links(writing, Request::Write { raw, content, overwrite, expected });
    law_reads_succeed(reading, raw, Purpose::Metadata);
}

} // verus!
