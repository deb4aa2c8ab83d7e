//! What holds of every request that writes a file.

use vstd::prelude::*;
use vstd::utf8::encode_utf8;
use crate::content::WriteResult;
use crate::disk::{same_items, Disk, Run};
use crate::laws::reads::{
    free_of_links, lemma_read_step, lemma_read_step_succeeds, read_inv, readable,
};
use crate::laws::requests::{law_success_is_free_of_links, Request};
use crate::paths::{
    cleaned, confined, displayed, law_clean_path_is_confined, lemma_temp_path, temp_path,
};
use crate::protocol::{Action, Event};
use crate::revision::revision_of;
use crate::server::{goes_on, FilesystemServer};
use crate::tasks::{starts_write, task_next, Output, Step, Task};
use crate::text::is_hex_digit;
use crate::writing::{is_id, is_temp_for, write_action, TempPhase, WriteJob, WritePhase};

verus! {

/// A temporary file is in the same directory as the file that it stands in for, and is not that
/// file.
pub proof fn lemma_temp(temp: Seq<Seq<char>>, path: Seq<Seq<char>>)
    requires
        is_temp_for(temp, path),
        confined(path),
        path.len() > 0,
    ensures
        confined(temp),
        temp != path,
{
    let id = choose|id: Seq<char>| is_id(id) && temp == #[trigger] temp_path(path, id);
    assert forall|i: int| 0 <= i < id.len() implies id[i] != '/' && id[i] != '\0' by {
        if !(i == 8 || i == 13 || i == 18 || i == 23) {
            assert(is_hex_digit(id[i]));
        }
    }
    lemma_temp_path(path, id);
}

/// Whether the file that `job` writes had the revision that is expected of it, if one is.
pub open spec fn checked(start: Disk, job: WriteJob) -> bool {
    job.expected matches Some(expected) ==> {
        &&& start.files.contains_key(job.path@)
        &&& revision_of(start.files[job.path@]) == expected@
    }
}

/// What the disk has of the files that it had at the start, in a phase of the writing that `job`
/// asks for.
pub open spec fn write_inv(max: u64, start: Disk, job: WriteJob, phase: WritePhase, disk: Disk) -> bool {
    let path = job.path@;
    match phase {
        WritePhase::Walking(_) | WritePhase::Locking => disk.files == start.files,
        WritePhase::Checking(reading) => {
            &&& disk.files == start.files
            &&& read_inv(max, path, reading, disk)
        },
        WritePhase::Creating => disk.files == start.files && checked(start, job),
        WritePhase::Writing => {
            &&& checked(start, job)
            &&& !start.has(path)
            &&& disk.files == start.files.insert(path, seq![])
            &&& disk.open == Some(path)
        },
        WritePhase::Syncing => {
            &&& checked(start, job)
            &&& !start.has(path)
            &&& disk.files == start.files.insert(path, job.bytes())
        },
        WritePhase::Replacing(temp, TempPhase::Creating) => disk.files == start.files && checked(
            start,
            job,
        ),
        WritePhase::Replacing(temp, TempPhase::Writing) => {
            &&& checked(start, job)
            &&& !start.files.contains_key(temp@)
            &&& disk.files == start.files.insert(temp@, seq![])
            &&& disk.open == Some(temp@)
        },
        WritePhase::Replacing(temp, replacing) => {
            &&& checked(start, job)
            &&& !start.files.contains_key(temp@)
            &&& disk.files == start.files.insert(temp@, job.bytes())
            &&& replacing matches TempPhase::Rechecking(reading) ==> read_inv(
                max,
                path,
                reading,
                disk,
            )
        },
        WritePhase::Discarding(temp, _) => disk.files.remove(temp@) == start.files.remove(temp@),
    }
}

/// Whether an item is the same on both disks: a file with the same content, something else of the
/// same kind, or on none.
pub open spec fn same_item(a: Disk, b: Disk, path: Seq<Seq<char>>) -> bool {
    &&& a.files.contains_key(path) == b.files.contains_key(path)
    &&& a.files.contains_key(path) ==> a.files[path] == b.files[path]
    &&& a.links.contains(path) == b.links.contains(path)
    &&& a.dirs.contains(path) == b.dirs.contains(path)
    &&& a.others.contains(path) == b.others.contains(path)
}

/// What a refused writing leaves behind: an existing file is as it was. Where a file may be
/// replaced, nothing else has changed either but at most a temporary file; where not, at most the
/// new file has come into being.
pub open spec fn keeps_files(start: Disk, job: WriteJob, disk: Disk) -> bool {
    if job.overwrite {
        forall|p: Seq<Seq<char>>|
            !is_temp_for(p, job.path@) ==> #[trigger] same_item(start, disk, p)
    } else {
        &&& start.files.contains_key(job.path@) ==> same_items(start, disk)
        &&& forall|p: Seq<Seq<char>>| p != job.path@ ==> #[trigger] same_item(start, disk, p)
    }
}

/// What holds at each step of the writing that `job` asks for.
pub open spec fn write_state(
    server: FilesystemServer,
    start: Disk,
    job: WriteJob,
    step: Step,
    disk: Disk,
) -> bool {
    &&& disk.dirs == start.dirs
    &&& job.path@.len() > 0
    &&& confined(job.path@)
    &&& match step {
        Step::Wait(task) => {
            &&& task matches Task::Write { job: j, phase }
            &&& j == job
            &&& disk.links == start.links
            &&& disk.others == start.others
            &&& write_inv(server.max_file_bytes, start, job, phase, disk)
        },
        Step::Done(Ok(_)) => {
            &&& disk.files == start.files.insert(job.path@, job.bytes())
            &&& disk.links == start.links.remove(job.path@)
            &&& disk.others == start.others.remove(job.path@)
            &&& job.bytes().len() <= server.max_file_bytes
            &&& !job.overwrite ==> !start.files.contains_key(job.path@)
            &&& checked(start, job)
        },
        Step::Done(Err(_)) => keeps_files(start, job, disk),
    }
}

pub proof fn lemma_write_step(
    server: FilesystemServer,
    start: Disk,
    job: WriteJob,
    phase: WritePhase,
    action: Action,
    event: Event,
    step: Step,
    before: Disk,
    after: Disk,
)
    requires
        before.links == start.links,
        before.dirs == start.dirs,
        before.others == start.others,
        phase.fits(server.max_file_bytes, job),
        write_inv(server.max_file_bytes, start, job, phase, before),
        write_action(server.max_file_bytes, job, phase, action),
        before.may_answer(action, event, after),
        task_next(step, server, Task::Write { job, phase }, event),
        goes_on(step, server),
    ensures
        write_state(server, start, job, step, after),
{
    let max = server.max_file_bytes;
    let path = job.path@;
    match phase {
        WritePhase::Checking(reading) => {
            lemma_read_step(max, path, reading, action, event, before, after);
            assert(write_state(server, start, job, step, after));
        },
        WritePhase::Writing => {
            assert(seq![] + job.bytes() =~= job.bytes());
            assert(event is Done ==> after.files =~= start.files.insert(path, job.bytes()));
            assert(write_state(server, start, job, step, after));
        },
        WritePhase::Replacing(temp, replacing) => {
            lemma_temp(temp@, path);
            match replacing {
                TempPhase::Creating => {
                    assert(write_state(server, start, job, step, after));
                },
                TempPhase::Writing => {
                    assert(seq![] + job.bytes() =~= job.bytes());
                    assert(event is Done ==> after.files =~= start.files.insert(
                        temp@,
                        job.bytes(),
                    ));
                    assert(event is Failed ==> after.files.remove(temp@) =~= start.files.remove(
                        temp@,
                    ));
                    assert(write_state(server, start, job, step, after));
                },
                TempPhase::Syncing => {
                    assert(after.files.remove(temp@) =~= start.files.remove(temp@));
                    assert(write_state(server, start, job, step, after));
                },
                TempPhase::Rechecking(reading) => {
                    lemma_read_step(max, path, reading, action, event, before, after);
                    assert(after.files.remove(temp@) =~= start.files.remove(temp@));
                    assert(write_state(server, start, job, step, after));
                },
                TempPhase::Renaming => {
                    assert(event is Done ==> after.files =~= start.files.insert(path, job.bytes()));
                    assert(event is Failed ==> after.files.remove(temp@) =~= start.files.remove(
                        temp@,
                    ));
                    assert(write_state(server, start, job, step, after));
                },
            }
        },
        WritePhase::Discarding(temp, _) => {
            assert(after.files.remove(temp@) =~= start.files.remove(temp@));
            assert forall|p: Seq<Seq<char>>| !is_temp_for(p, path) implies #[trigger] same_item(
                start,
                after,
                p,
            ) by {
                assert(start.files.remove(temp@).contains_key(p) == start.files.contains_key(p));
                assert(after.files.remove(temp@).contains_key(p) == after.files.contains_key(p));
                if start.files.contains_key(p) {
                    assert(start.files.remove(temp@)[p] == start.files[p]);
                    assert(after.files.remove(temp@)[p] == after.files[p]);
                }
            }
            assert(write_state(server, start, job, step, after));
        },
        _ => {
            if !start.has(path) {
                assert(start.links.remove(path) =~= start.links);
                assert(start.others.remove(path) =~= start.others);
            }
            assert(write_state(server, start, job, step, after));
        },
    }
}

pub proof fn lemma_write_run(run: Run, start: Disk, job: WriteJob, from: int, i: int)
    requires
        run.wf(),
        0 <= from <= i < run.steps.len(),
        write_state(run.server, start, job, run.steps[from], run.disks[from]),
    ensures
        write_state(run.server, start, job, run.steps[i], run.disks[i]),
    decreases i,
{
    if i > from {
        let k = i - 1;
        lemma_write_run(run, start, job, from, k);
        assert(run.goes(k));
        if k > 0 {
            assert(run.goes(k - 1));
        }
        lemma_write_step(
            run.server,
            start,
            job,
            run.steps[k]->Wait_0->Write_phase,
            run.actions[k],
            run.events[k],
            run.steps[i],
            run.disks[k],
            run.disks[i],
        );
    }
}

/// The job that a request to write starts with, where it is not refused at once.
pub open spec fn first_job(step: Step) -> WriteJob {
    step->Wait_0->Write_job
}

pub proof fn lemma_write_request(
    run: Run,
    raw: Seq<char>,
    content: Seq<char>,
    overwrite: bool,
    expected: Option<Seq<char>>,
)
    requires
        run.wf(),
        starts_write(run.steps[0], run.server, raw, content, overwrite, expected),
    ensures
        run.server.read_only || cleaned(raw, false) is Err ==> {
            &&& run.steps[0] is Done
            &&& run.now() == run.steps[0]
            &&& run.after() == run.before()
        },
        !run.server.read_only && cleaned(raw, false) is Ok ==> forall|i: int|
            0 <= i < run.steps.len() ==> write_state(
                run.server,
                run.before(),
                first_job(run.steps[0]),
                #[trigger] run.steps[i],
                run.disks[i],
            ),
{
    if run.server.read_only || cleaned(raw, false) is Err {
        if run.events.len() > 0 {
            assert(run.goes(0));
        }
    } else {
        law_clean_path_is_confined(raw, false);
        let job = first_job(run.steps[0]);
        assert forall|i: int| 0 <= i < run.steps.len() implies write_state(
            run.server,
            run.before(),
            job,
            #[trigger] run.steps[i],
            run.disks[i],
        ) by {
            lemma_write_run(run, run.before(), job, 0, i);
        }
    }
}

/// Whether `result` tells that the file `path` holds `bytes` now.
pub open spec fn tells_of(result: WriteResult, path: Seq<Seq<char>>, bytes: Seq<u8>) -> bool {
    &&& result.path@ == displayed(path)
    &&& result.size_bytes == bytes.len()
    &&& result.revision@ == revision_of(bytes)
}

/// A writing that succeeds has done what was asked for, and nothing else: the file holds the
/// content, everything else is as it was, and the answer gives the new revision. It succeeds only
/// where it may: not on a read-only server, not with too much content, not over an existing file
/// unless that was asked for, and not over a file that has another revision than the expected one.
pub proof fn law_write_takes_effect(
    run: Run,
    raw: Seq<char>,
    content: Seq<char>,
    overwrite: bool,
    expected: Option<Seq<char>>,
)
    requires
        run.wf(),
        starts_write(run.steps[0], run.server, raw, content, overwrite, expected),
        run.now() matches Step::Done(Ok(_)),
    ensures
        !run.server.read_only,
        encode_utf8(content).len() <= run.server.max_file_bytes,
        ({
            let bytes = encode_utf8(content);
            &&& cleaned(raw, false) matches Ok(path)
            &&& run.after().files == run.before().files.insert(path, bytes)
            &&& run.after().links == run.before().links
            &&& run.after().dirs == run.before().dirs
            &&& run.after().others == run.before().others.remove(path)
            &&& run.now() matches Step::Done(Ok(Output::Written(result)))
            &&& tells_of(result, path, bytes)
            &&& !overwrite ==> !run.before().files.contains_key(path)
            &&& expected matches Some(e) ==> {
                &&& run.before().files.contains_key(path)
                &&& revision_of(run.before().files[path]) == e
            }
        }),
{
    lemma_write_request(run, raw, content, overwrite, expected);
    law_success_is_free_of_links(run, Request::Write { raw, content, overwrite, expected });
    let last = run.steps.len() - 1;
    let path = first_job(run.steps[0]).path@;
    assert(path.take(path.len() as int) =~= path);
    assert(write_state(
        run.server,
        run.before(),
        first_job(run.steps[0]),
        run.steps[last],
        run.disks[last],
    ));
    assert(write_state(
        run.server,
        run.before(),
        first_job(run.steps[0]),
        run.steps[last - 1],
        run.disks[last - 1],
    ));
    assert(run.goes(last - 1));
}

/// A writing that is refused changes nothing that was there: every file is as it was, and none has
/// come into being but, at most, a temporary file, or, where nothing was to be replaced, the new
/// file.
pub proof fn law_refused_write_keeps_files(
    run: Run,
    raw: Seq<char>,
    content: Seq<char>,
    overwrite: bool,
    expected: Option<Seq<char>>,
    path: Seq<Seq<char>>,
)
    requires
        run.wf(),
        starts_write(run.steps[0], run.server, raw, content, overwrite, expected),
        run.now() matches Step::Done(Err(_)),
        cleaned(raw, false) matches Ok(target) ==> if overwrite {
            !is_temp_for(path, target)
        } else {
            path != target || run.before().files.contains_key(path)
        },
    ensures
        same_item(run.before(), run.after(), path),
{
    lemma_write_request(run, raw, content, overwrite, expected);
    let last = run.steps.len() - 1;
    if !run.server.read_only && cleaned(raw, false) is Ok {
        assert(write_state(
            run.server,
            run.before(),
            first_job(run.steps[0]),
            run.steps[last],
            run.disks[last],
        ));
    }
}

/// A temporary file never has the name of the file that it stands in for.
pub proof fn law_file_is_not_its_temporary_file(path: Seq<Seq<char>>)
    requires
        confined(path),
        path.len() > 0,
    ensures
        !is_temp_for(path, path),
{
    if is_temp_for(path, path) {
        lemma_temp(path, path);
    }
}

/// Whether a file on a disk is whole: as it was at the start, or with the new content.
pub open spec fn old_or_new(start: Disk, disk: Disk, path: Seq<Seq<char>>, bytes: Seq<u8>) -> bool {
    ||| same_item(start, disk, path)
    ||| disk.files.contains_key(path) && disk.files[path] == bytes
}

pub proof fn lemma_old_or_new(
    server: FilesystemServer,
    start: Disk,
    job: WriteJob,
    step: Step,
    disk: Disk,
)
    requires
        write_state(server, start, job, step, disk),
        goes_on(step, server),
        job.overwrite,
    ensures
        old_or_new(start, disk, job.path@, job.bytes()),
{
    let path = job.path@;
    match step {
        Step::Wait(Task::Write { phase, .. }) => match phase {
            WritePhase::Replacing(temp, _) => {
                lemma_temp(temp@, path);
            },
            WritePhase::Discarding(temp, _) => {
                lemma_temp(temp@, path);
                assert(start.files.remove(temp@).contains_key(path) == start.files.contains_key(
                    path,
                ));
                assert(disk.files.remove(temp@).contains_key(path) == disk.files.contains_key(
                    path,
                ));
                if start.files.contains_key(path) {
                    assert(start.files.remove(temp@)[path] == start.files[path]);
                    assert(disk.files.remove(temp@)[path] == disk.files[path]);
                }
            },
            _ => {},
        },
        Step::Done(Err(_)) => {
            law_file_is_not_its_temporary_file(path);
            assert(same_item(start, disk, path));
        },
        _ => {},
    }
}

/// A replacement is all or nothing: at every moment, the file is as it was before or has the whole
/// new content.
pub proof fn law_replacement_is_atomic(
    run: Run,
    raw: Seq<char>,
    content: Seq<char>,
    expected: Option<Seq<char>>,
    i: int,
)
    requires
        run.wf(),
        starts_write(run.steps[0], run.server, raw, content, true, expected),
        0 <= i < run.disks.len(),
        cleaned(raw, false) is Ok,
    ensures
        old_or_new(
            run.before(),
            run.disks[i],
            cleaned(raw, false)->Ok_0,
            encode_utf8(content),
        ),
{
    lemma_write_request(run, raw, content, true, expected);
    if run.server.read_only {
        if run.events.len() > 0 {
            assert(run.goes(0));
        }
    } else {
        let job = first_job(run.steps[0]);
        assert(write_state(run.server, run.before(), job, run.steps[i], run.disks[i]));
        if i > 0 {
            assert(run.goes(i - 1));
        }
        lemma_old_or_new(run.server, run.before(), job, run.steps[i], run.disks[i]);
    }
}

/// Whether everything that was to be removed was removed.
pub open spec fn removes_all(run: Run) -> bool {
    forall|i: int|
        0 <= i < run.events.len() && run.actions[i] is RemoveFile ==> #[trigger] run.events[i]
            is Done
}

/// Whether nothing that was to be removed was there at the start: no temporary file got the name of
/// a file that existed.
pub open spec fn removes_only_its_own(run: Run) -> bool {
    forall|i: int|
        0 <= i < run.actions.len() ==> (#[trigger] run.actions[i] matches Action::RemoveFile { path }
            ==> !run.before().files.contains_key(path@))
}

pub proof fn lemma_cleans_up(run: Run, job: WriteJob)
    requires
        run.wf(),
        run.events.len() > 0,
        write_state(
            run.server,
            run.before(),
            job,
            run.steps[run.steps.len() - 2],
            run.disks[run.disks.len() - 2],
        ),
        job.overwrite,
        run.now() matches Step::Done(Err(_)),
        removes_all(run),
        removes_only_its_own(run),
    ensures
        run.after().files == run.before().files,
{
    let k = run.steps.len() - 2;
    assert(run.goes(k));
    if k > 0 {
        assert(run.goes(k - 1));
    }
    match run.steps[k]->Wait_0->Write_phase {
        WritePhase::Checking(reading) => {
            lemma_read_step(
                run.server.max_file_bytes,
                job.path@,
                reading,
                run.actions[k],
                run.events[k],
                run.disks[k],
                run.disks[k + 1],
            );
        },
        WritePhase::Discarding(temp, _) => {
            assert(run.actions[k] is RemoveFile);
            assert(run.events[k] is Done);
            assert(!run.before().files.contains_key(temp@));
            assert(run.before().files.remove(temp@) =~= run.before().files);
        },
        _ => {},
    }
}

/// A replacement that is refused leaves no temporary file behind, unless it cannot be removed: the
/// files are those that were there before.
pub proof fn law_refused_replacement_cleans_up(
    run: Run,
    raw: Seq<char>,
    content: Seq<char>,
    expected: Option<Seq<char>>,
)
    requires
        run.wf(),
        starts_write(run.steps[0], run.server, raw, content, true, expected),
        run.now() matches Step::Done(Err(_)),
        removes_all(run),
        removes_only_its_own(run),
    ensures
        run.after().files == run.before().files,
{
    lemma_write_request(run, raw, content, true, expected);
    if !run.server.read_only && cleaned(raw, false) is Ok {
        let k = run.steps.len() - 2;
        let job = first_job(run.steps[0]);
        assert(write_state(run.server, run.before(), job, run.steps[k], run.disks[k]));
        lemma_cleans_up(run, job);
    }
}

/// Whether nothing speaks against the writing that `job` asks for.
pub open spec fn writable(server: FilesystemServer, disk: Disk, job: WriteJob) -> bool {
    &&& free_of_links(disk, job.path@)
    &&& job.bytes().len() <= server.max_file_bytes
    &&& job.expected matches Some(expected) ==> {
        &&& readable(disk, job.path@, server.max_file_bytes)
        &&& revision_of(disk.files[job.path@]) == expected@
    }
}

/// Whether a writing is on its way to succeed, or has succeeded.
pub open spec fn succeeding(step: Step) -> bool {
    match step {
        Step::Wait(Task::Write { phase, .. }) => !(phase is Discarding),
        Step::Done(Ok(_)) => true,
        _ => false,
    }
}

pub proof fn lemma_smooth_write_step(
    server: FilesystemServer,
    start: Disk,
    job: WriteJob,
    phase: WritePhase,
    action: Action,
    event: Event,
    step: Step,
    before: Disk,
    after: Disk,
)
    requires
        writable(server, start, job),
        write_state(server, start, job, Step::Wait(Task::Write { job, phase }), before),
        phase.fits(server.max_file_bytes, job),
        succeeding(Step::Wait(Task::Write { job, phase })),
        write_action(server.max_file_bytes, job, phase, action),
        before.may_answer(action, event, after),
        !(event is Failed),
        task_next(step, server, Task::Write { job, phase }, event),
    ensures
        succeeding(step),
{
    let max = server.max_file_bytes;
    let path = job.path@;
    match phase {
        WritePhase::Walking(n) => {
            assert(!start.links.contains(path.take(n as int)));
        },
        WritePhase::Checking(reading) => {
            lemma_read_step(max, path, reading, action, event, before, after);
            lemma_read_step_succeeds(max, path, reading, action, event, before, after);
        },
        WritePhase::Replacing(temp, TempPhase::Rechecking(reading)) => {
            lemma_temp(temp@, path);
            assert(before.files[path] == start.files[path]);
            lemma_read_step(max, path, reading, action, event, before, after);
            lemma_read_step_succeeds(max, path, reading, action, event, before, after);
        },
        _ => {},
    }
}

pub proof fn lemma_smooth_write_run(run: Run, start: Disk, job: WriteJob, from: int, i: int)
    requires
        run.wf(),
        run.smooth(),
        0 <= from <= i < run.steps.len(),
        write_state(run.server, start, job, run.steps[from], run.disks[from]),
        succeeding(run.steps[from]),
        writable(run.server, start, job),
    ensures
        succeeding(run.steps[i]),
    decreases i,
{
    if i > from {
        let k = i - 1;
        lemma_smooth_write_run(run, start, job, from, k);
        lemma_write_run(run, start, job, from, k);
        assert(run.goes(k));
        if k > 0 {
            assert(run.goes(k - 1));
        }
        assert(!(run.events[k] is Failed));
        lemma_smooth_write_step(
            run.server,
            start,
            job,
            run.steps[k]->Wait_0->Write_phase,
            run.actions[k],
            run.events[k],
            run.steps[i],
            run.disks[k],
            run.disks[i],
        );
    }
}

/// A writing that nothing speaks against succeeds: on a server that may write, with content within
/// the limit, no symlink on the way to the file, and a file of the expected revision where one is
/// expected, it ends with success unless something fails. That a file is there already that may
/// not be replaced counts as a failure to create it.
pub proof fn law_writes_succeed(
    run: Run,
    raw: Seq<char>,
    content: Seq<char>,
    overwrite: bool,
    expected: Option<Seq<char>>,
)
    requires
        run.wf(),
        starts_write(run.steps[0], run.server, raw, content, overwrite, expected),
        !run.server.read_only,
        cleaned(raw, false) is Ok,
        free_of_links(run.before(), cleaned(raw, false)->Ok_0),
        encode_utf8(content).len() <= run.server.max_file_bytes,
        expected matches Some(e) ==> {
            let path = cleaned(raw, false)->Ok_0;
            &&& readable(run.before(), path, run.server.max_file_bytes)
            &&& revision_of(run.before().files[path]) == e
        },
        run.smooth(),
        run.now() is Done,
    ensures
        run.now() matches Step::Done(Ok(Output::Written(_))),
{
    lemma_write_request(run, raw, content, overwrite, expected);
    let last = run.steps.len() - 1;
    let job = first_job(run.steps[0]);
    assert(write_state(run.server, run.before(), job, run.steps[0], run.disks[0]));
    lemma_smooth_write_run(run, run.before(), job, 0, last);
    law_write_takes_effect(run, raw, content, overwrite, expected);
}

} // verus!
