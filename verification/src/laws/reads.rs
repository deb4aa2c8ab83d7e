//! What holds of every request that reads a file.

use vstd::prelude::*;
use crate::disk::{same_items, Disk, Run};
use crate::paths::{cleaned, law_clean_path_is_confined};
use crate::protocol::{Action, Event};
use crate::reading::{read_action, read_next, ReadNext, ReadPhase};
use crate::server::{starts_read, FilesystemServer};
use crate::tasks::{answers_read, Purpose, Step, Task};

verus! {

/// What holds of the disk in a phase of the reading of `path`.
pub open spec fn read_inv(max: u64, path: Seq<Seq<char>>, phase: ReadPhase, disk: Disk) -> bool {
    match phase {
        ReadPhase::Walking(n) => 1 <= n <= path.len(),
        ReadPhase::Opening => true,
        ReadPhase::Inspecting => disk.open == Some(path),
        ReadPhase::Reading => {
            &&& disk.open == Some(path)
            &&& disk.files.contains_key(path)
            &&& disk.files[path].len() <= max
        },
    }
}

/// Reading changes no file, and gives the bytes that the file holds.
pub proof fn lemma_read_step(
    max: u64,
    path: Seq<Seq<char>>,
    phase: ReadPhase,
    action: Action,
    event: Event,
    before: Disk,
    after: Disk,
)
    requires
        read_inv(max, path, phase, before),
        read_action(max, path, phase, action),
        before.may_answer(action, event, after),
    ensures
        same_items(before, after),
        match read_next(max, path, phase, event) {
            ReadNext::Wait(next) => next.fits(path) ==> read_inv(max, path, next, after),
            ReadNext::Read(bytes) => {
                &&& before.files.contains_key(path)
                &&& bytes == before.files[path]
                &&& bytes.len() <= max
            },
            ReadNext::Refused(_) => true,
        },
{
}

/// Whether no part of a path is a symlink.
pub open spec fn free_of_links(disk: Disk, path: Seq<Seq<char>>) -> bool {
    forall|n: int| 0 < n <= path.len() ==> !disk.links.contains(#[trigger] path.take(n))
}

/// Whether the disk has a file `path` that a server with the limit `max` can read, and no symlink
/// on the way to it.
pub open spec fn readable(disk: Disk, path: Seq<Seq<char>>, max: u64) -> bool {
    &&& disk.files.contains_key(path)
    &&& disk.files[path].len() <= max
    &&& free_of_links(disk, path)
}

/// A file that can be read is read, unless something fails.
pub proof fn lemma_read_step_succeeds(
    max: u64,
    path: Seq<Seq<char>>,
    phase: ReadPhase,
    action: Action,
    event: Event,
    before: Disk,
    after: Disk,
)
    requires
        read_inv(max, path, phase, before),
        read_action(max, path, phase, action),
        before.may_answer(action, event, after),
        readable(before, path, max),
        !(event is Failed),
    ensures
        !(read_next(max, path, phase, event) is Refused),
{
}

/// What holds at each step of a request that reads `path` for `purpose` and does not write.
spec fn read_state(
    server: FilesystemServer,
    start: Disk,
    purpose: Purpose,
    path: Seq<Seq<char>>,
    step: Step,
    disk: Disk,
) -> bool {
    &&& same_items(start, disk)
    &&& match step {
        Step::Wait(task) => {
            &&& task matches Task::Read { purpose: p, path: q, phase }
            &&& p == purpose
            &&& q@ == path
            &&& read_inv(server.max_file_bytes, path, phase, disk)
        },
        Step::Done(Ok(_)) => {
            &&& start.files.contains_key(path)
            &&& start.files[path].len() <= server.max_file_bytes
            &&& answers_read(step, server, purpose, path, start.files[path])
        },
        Step::Done(Err(_)) => true,
    }
}

proof fn lemma_read_run(run: Run, purpose: Purpose, path: Seq<Seq<char>>, i: int)
    requires
        run.wf(),
        read_state(run.server, run.before(), purpose, path, run.steps[0], run.before()),
        !(purpose is Patch),
        0 <= i < run.steps.len(),
    ensures
        read_state(run.server, run.before(), purpose, path, run.steps[i], run.disks[i]),
    decreases i,
{
    if i > 0 {
        let k = i - 1;
        lemma_read_run(run, purpose, path, k);
        assert(run.goes(k));
        let task = run.steps[k]->Wait_0;
        let phase = task->Read_phase;
        lemma_read_step(
            run.server.max_file_bytes,
            path,
            phase,
            run.actions[k],
            run.events[k],
            run.disks[k],
            run.disks[i],
        );
    }
}

/// What a request tells of a file is true: it changes nothing, and where it succeeds, its answer is
/// the one for the bytes that the file holds, which are within the limit.
pub proof fn law_reads_are_true(run: Run, raw: Seq<char>, purpose: Purpose)
    requires
        run.wf(),
        starts_read(run.steps[0], raw, purpose),
        !(purpose is Patch),
    ensures
        same_items(run.before(), run.after()),
        run.now() matches Step::Done(Ok(_)) ==> {
            &&& cleaned(raw, false) matches Ok(path)
            &&& run.before().files.contains_key(path)
            &&& run.before().files[path].len() <= run.server.max_file_bytes
            &&& answers_read(run.now(), run.server, purpose, path, run.before().files[path])
        },
{
    if cleaned(raw, false) is Ok {
        let path = cleaned(raw, false)->Ok_0;
        law_clean_path_is_confined(raw, false);
        lemma_read_run(run, purpose, path, run.steps.len() - 1);
    } else {
        if run.events.len() > 0 {
            assert(run.goes(0));
        }
    }
}

proof fn lemma_smooth_read_run(run: Run, purpose: Purpose, path: Seq<Seq<char>>, i: int)
    requires
        run.wf(),
        read_state(run.server, run.before(), purpose, path, run.steps[0], run.before()),
        run.steps[0] is Wait,
        !(purpose is Patch),
        readable(run.before(), path, run.server.max_file_bytes),
        run.smooth(),
        0 <= i < run.steps.len(),
    ensures
        run.steps[i] is Done ==> answers_read(
            run.steps[i],
            run.server,
            purpose,
            path,
            run.before().files[path],
        ),
{
    if i > 0 {
        let k = i - 1;
        lemma_read_run(run, purpose, path, k);
        assert(run.goes(k));
        let task = run.steps[k]->Wait_0;
        let phase = task->Read_phase;
        let max = run.server.max_file_bytes;
        lemma_read_step(
            max,
            path,
            phase,
            run.actions[k],
            run.events[k],
            run.disks[k],
            run.disks[i],
        );
        lemma_read_step_succeeds(
            max,
            path,
            phase,
            run.actions[k],
            run.events[k],
            run.disks[k],
            run.disks[i],
        );
    }
}

/// A request that reads a file gets its answer: where the file exists within the limit, no symlink
/// leads to it and nothing fails, the request ends with the answer for what the file holds.
pub proof fn law_reads_succeed(run: Run, raw: Seq<char>, purpose: Purpose)
    requires
        run.wf(),
        starts_read(run.steps[0], raw, purpose),
        !(purpose is Patch),
        cleaned(raw, false) is Ok,
        readable(run.before(), cleaned(raw, false)->Ok_0, run.server.max_file_bytes),
        run.smooth(),
        run.now() is Done,
    ensures
        answers_read(
            run.now(),
            run.server,
            purpose,
            cleaned(raw, false)->Ok_0,
            run.before().files[cleaned(raw, false)->Ok_0],
        ),
{
    let path = cleaned(raw, false)->Ok_0;
    law_clean_path_is_confined(raw, false);
    lemma_smooth_read_run(run, purpose, path, run.steps.len() - 1);
}

} // verus!
