//! What holds of every request that patches a file.

use vstd::prelude::*;
use vstd::utf8::{encode_utf8, valid_utf8};
use crate::content::{patchable, patched, spliced, PatchTextFileArgs};
use crate::disk::{same_items, Disk, Run};
use crate::laws::reads::{lemma_read_step, lemma_read_step_succeeds, read_inv, readable};
use crate::laws::requests::{law_success_is_free_of_links, Request};
use crate::laws::revisions::refused_as_stale;
use crate::laws::writes::{
    law_file_is_not_its_temporary_file, lemma_cleans_up, lemma_old_or_new, lemma_smooth_write_run,
    lemma_write_step, old_or_new, removes_all, removes_only_its_own, same_item, succeeding,
    tells_of, writable, write_state,
};
use crate::messages::law_stale_messages_are_retryable;
use crate::paths::{cleaned, confined, law_clean_path_is_confined};
use crate::revision::revision_of;
use crate::server::{starts_read, FilesystemServer};
use crate::tasks::{Output, Purpose, Step, Task};
use crate::writing::{is_temp_for, WriteJob};

verus! {

/// Whether `job` writes what the patch that `args` asks for makes of the file `path`.
spec fn patches(
    server: FilesystemServer,
    start: Disk,
    args: PatchTextFileArgs,
    path: Seq<Seq<char>>,
    job: WriteJob,
) -> bool {
    &&& start.files.contains_key(path)
    &&& start.files[path].len() <= server.max_file_bytes
    &&& patched(args, start.files[path], server.max_file_bytes) == Ok::<_, Seq<char>>(job.bytes())
    &&& !server.read_only
    &&& job.path@ == path
    &&& job.overwrite
    &&& job.expected matches Some(expected)
    &&& expected@ == args.expected_revision@
}

/// What holds at each step of the patch that `args` asks for.
spec fn patch_state(
    server: FilesystemServer,
    start: Disk,
    args: PatchTextFileArgs,
    path: Seq<Seq<char>>,
    step: Step,
    disk: Disk,
) -> bool {
    &&& disk.dirs == start.dirs
    &&& match step {
        Step::Wait(Task::Read { purpose, path: p, phase }) => {
            &&& purpose == Purpose::Patch(args)
            &&& p@ == path
            &&& same_items(start, disk)
            &&& read_inv(server.max_file_bytes, path, phase, disk)
        },
        Step::Wait(Task::Write { job, .. }) => {
            &&& patches(server, start, args, path, job)
            &&& write_state(server, start, job, step, disk)
        },
        Step::Wait(_) => false,
        Step::Done(Ok(output)) => {
            &&& start.files.contains_key(path)
            &&& start.files[path].len() <= server.max_file_bytes
            &&& !server.read_only
            &&& patched(args, start.files[path], server.max_file_bytes) matches Ok(bytes)
            &&& disk.files == start.files.insert(path, bytes)
            &&& disk.links == start.links.remove(path)
            &&& disk.others == start.others.remove(path)
            &&& output matches Output::Written(result)
            &&& tells_of(result, path, bytes)
        },
        Step::Done(Err(_)) => forall|p: Seq<Seq<char>>|
            !is_temp_for(p, path) ==> #[trigger] same_item(start, disk, p),
    }
}

proof fn lemma_patch_run(run: Run, args: PatchTextFileArgs, path: Seq<Seq<char>>, i: int)
    requires
        run.wf(),
        cleaned(args.path@, false) == Ok::<_, Seq<char>>(path),
        confined(path),
        path.len() > 0,
        patch_state(run.server, run.before(), args, path, run.steps[0], run.before()),
        0 <= i < run.steps.len(),
    ensures
        patch_state(run.server, run.before(), args, path, run.steps[i], run.disks[i]),
    decreases i,
{
    if i > 0 {
        let k = i - 1;
        lemma_patch_run(run, args, path, k);
        assert(run.goes(k));
        if k > 0 {
            assert(run.goes(k - 1));
        }
        let start = run.before();
        match run.steps[k]->Wait_0 {
            Task::Read { purpose, path: p, phase } => {
                lemma_read_step(
                    run.server.max_file_bytes,
                    path,
                    phase,
                    run.actions[k],
                    run.events[k],
                    run.disks[k],
                    run.disks[i],
                );
            },
            Task::Write { job, phase } => {
                lemma_write_step(
                    run.server,
                    start,
                    job,
                    phase,
                    run.actions[k],
                    run.events[k],
                    run.steps[i],
                    run.disks[k],
                    run.disks[i],
                );
            },
            _ => {},
        }
    }
}

proof fn lemma_patch_request(run: Run, args: PatchTextFileArgs)
    requires
        run.wf(),
        starts_read(run.steps[0], args.path@, Purpose::Patch(args)),
    ensures
        cleaned(args.path@, false) is Err ==> {
            &&& run.now() matches Step::Done(Err(_))
            &&& run.after() == run.before()
        },
        cleaned(args.path@, false) matches Ok(path) ==> patch_state(
            run.server,
            run.before(),
            args,
            path,
            run.now(),
            run.after(),
        ),
{
    if cleaned(args.path@, false) is Ok {
        law_clean_path_is_confined(args.path@, false);
        lemma_patch_run(run, args, cleaned(args.path@, false)->Ok_0, run.steps.len() - 1);
    } else if run.events.len() > 0 {
        assert(run.goes(0));
    }
}

/// A patch that succeeds has replaced the bytes that it was to replace, and nothing else: the rest
/// of the file and everything else are as they were, and the answer gives the new revision. The
/// file was within the limit, is so still, and had the revision that was expected; its text is cut
/// at character boundaries only.
pub proof fn law_patch_takes_effect(run: Run, args: PatchTextFileArgs)
    requires
        run.wf(),
        starts_read(run.steps[0], args.path@, Purpose::Patch(args)),
        run.now() matches Step::Done(Ok(_)),
    ensures
        !run.server.read_only,
        ({
            let start = args.start_byte as int;
            let end = args.end_byte as int;
            &&& cleaned(args.path@, false) matches Ok(path)
            &&& run.before().files.contains_key(path)
            &&& run.before().files[path].len() <= run.server.max_file_bytes
            &&& revision_of(run.before().files[path]) == args.expected_revision@
            &&& valid_utf8(run.before().files[path])
            &&& patchable(run.before().files[path], start, end)
            &&& run.now() matches Step::Done(Ok(Output::Written(result)))
            &&& {
                let bytes = spliced(
                    run.before().files[path],
                    start,
                    end,
                    encode_utf8(args.replacement@),
                );
                &&& bytes.len() <= run.server.max_file_bytes
                &&& run.after().files == run.before().files.insert(path, bytes)
                &&& run.after().links == run.before().links
                &&& run.after().dirs == run.before().dirs
                &&& run.after().others == run.before().others.remove(path)
                &&& tells_of(result, path, bytes)
            }
        }),
{
    lemma_patch_request(run, args);
    law_success_is_free_of_links(
        run,
        Request::Read { raw: args.path@, purpose: Purpose::Patch(args) },
    );
    let path = cleaned(args.path@, false)->Ok_0;
    assert(path.take(path.len() as int) =~= path);
    assert(run.before().links.remove(path) =~= run.before().links);
}

/// A patch that is refused changes nothing that was there: every file is as it was, and at most a
/// temporary file has come into being.
pub proof fn law_refused_patch_keeps_files(
    run: Run,
    args: PatchTextFileArgs,
    path: Seq<Seq<char>>,
)
    requires
        run.wf(),
        starts_read(run.steps[0], args.path@, Purpose::Patch(args)),
        run.now() matches Step::Done(Err(_)),
        cleaned(args.path@, false) matches Ok(target) ==> !is_temp_for(path, target),
    ensures
        same_item(run.before(), run.after(), path),
{
    lemma_patch_request(run, args);
}

/// A patch that is refused leaves no temporary file behind, unless it cannot be removed: the files
/// are those that were there before.
pub proof fn law_refused_patch_cleans_up(run: Run, args: PatchTextFileArgs)
    requires
        run.wf(),
        starts_read(run.steps[0], args.path@, Purpose::Patch(args)),
        run.now() matches Step::Done(Err(_)),
        removes_all(run),
        removes_only_its_own(run),
    ensures
        run.after().files == run.before().files,
{
    lemma_patch_request(run, args);
    if cleaned(args.path@, false) is Ok {
        let path = cleaned(args.path@, false)->Ok_0;
        let k = run.steps.len() - 2;
        law_clean_path_is_confined(args.path@, false);
        lemma_patch_run(run, args, path, k);
        assert(run.goes(k));
        match run.steps[k]->Wait_0 {
            Task::Read { phase, .. } => {
                lemma_read_step(
                    run.server.max_file_bytes,
                    path,
                    phase,
                    run.actions[k],
                    run.events[k],
                    run.disks[k],
                    run.disks[k + 1],
                );
            },
            Task::Write { job, .. } => {
                lemma_cleans_up(run, job);
            },
            _ => {},
        }
    }
}

/// A patch is all or nothing: at every moment, the file is as it was before or has all of what the
/// patch makes of it.
pub proof fn law_patch_is_atomic(run: Run, args: PatchTextFileArgs, i: int)
    requires
        run.wf(),
        starts_read(run.steps[0], args.path@, Purpose::Patch(args)),
        0 <= i < run.disks.len(),
        cleaned(args.path@, false) is Ok,
    ensures
        ({
            let path = cleaned(args.path@, false)->Ok_0;
            let bytes = spliced(
                run.before().files[path],
                args.start_byte as int,
                args.end_byte as int,
                encode_utf8(args.replacement@),
            );
            old_or_new(run.before(), run.disks[i], path, bytes)
        }),
{
    let path = cleaned(args.path@, false)->Ok_0;
    law_clean_path_is_confined(args.path@, false);
    lemma_patch_run(run, args, path, i);
    law_file_is_not_its_temporary_file(path);
    if i > 0 {
        assert(run.goes(i - 1));
    }
    match run.steps[i] {
        Step::Wait(Task::Write { job, .. }) => {
            lemma_old_or_new(run.server, run.before(), job, run.steps[i], run.disks[i]);
        },
        Step::Done(Err(_)) => {
            assert(same_item(run.before(), run.disks[i], path));
        },
        _ => {},
    }
}

proof fn lemma_smooth_patch_run(run: Run, args: PatchTextFileArgs, path: Seq<Seq<char>>, i: int)
    requires
        run.wf(),
        run.smooth(),
        cleaned(args.path@, false) == Ok::<_, Seq<char>>(path),
        confined(path),
        path.len() > 0,
        patch_state(run.server, run.before(), args, path, run.steps[0], run.before()),
        run.steps[0] matches Step::Wait(Task::Read { .. }),
        readable(run.before(), path, run.server.max_file_bytes),
        0 <= i < run.steps.len(),
    ensures
        match patched(args, run.before().files[path], run.server.max_file_bytes) {
            Ok(_) => {
                ||| run.server.read_only
                ||| run.steps[i] matches Step::Wait(Task::Read { .. })
                ||| succeeding(run.steps[i])
            },
            Err(message) => {
                ||| run.steps[i] matches Step::Wait(Task::Read { .. })
                ||| run.steps[i].refuses(message)
            },
        },
    decreases i,
{
    if i > 0 {
        let k = i - 1;
        lemma_smooth_patch_run(run, args, path, k);
        lemma_patch_run(run, args, path, k);
        lemma_patch_run(run, args, path, i);
        assert(run.goes(k));
        let start = run.before();
        match run.steps[k]->Wait_0 {
            Task::Read { phase, .. } => {
                lemma_read_step(
                    run.server.max_file_bytes,
                    path,
                    phase,
                    run.actions[k],
                    run.events[k],
                    run.disks[k],
                    run.disks[i],
                );
                lemma_read_step_succeeds(
                    run.server.max_file_bytes,
                    path,
                    phase,
                    run.actions[k],
                    run.events[k],
                    run.disks[k],
                    run.disks[i],
                );
            },
            Task::Write { job, phase } => {
                assert(writable(run.server, start, job));
                lemma_smooth_write_run(run, start, job, k, i);
            },
            _ => {},
        }
    }
}

/// A patch that nothing speaks against succeeds, unless something fails; and one that does not fit
/// the file is refused with the message that says why.
pub proof fn law_patches_succeed(run: Run, args: PatchTextFileArgs)
    requires
        run.wf(),
        starts_read(run.steps[0], args.path@, Purpose::Patch(args)),
        cleaned(args.path@, false) is Ok,
        readable(run.before(), cleaned(args.path@, false)->Ok_0, run.server.max_file_bytes),
        run.smooth(),
        run.now() is Done,
    ensures
        match patched(
            args,
            run.before().files[cleaned(args.path@, false)->Ok_0],
            run.server.max_file_bytes,
        ) {
            Ok(_) => run.server.read_only || (run.now() matches Step::Done(Ok(_))),
            Err(message) => run.now().refuses(message),
        },
{
    let path = cleaned(args.path@, false)->Ok_0;
    law_clean_path_is_confined(args.path@, false);
    lemma_smooth_patch_run(run, args, path, run.steps.len() - 1);
}

/// A patch for a file that has changed since the client looked at it is refused with a message by
/// which the client knows to look again.
pub proof fn law_stale_patch_is_refused(run: Run, args: PatchTextFileArgs)
    requires
        run.wf(),
        starts_read(run.steps[0], args.path@, Purpose::Patch(args)),
        cleaned(args.path@, false) is Ok,
        readable(run.before(), cleaned(args.path@, false)->Ok_0, run.server.max_file_bytes),
        revision_of(run.before().files[cleaned(args.path@, false)->Ok_0])
            != args.expected_revision@,
        run.smooth(),
        run.now() is Done,
    ensures
        refused_as_stale(run.now()),
{
    law_patches_succeed(run, args);
    law_stale_messages_are_retryable(
        args.expected_revision@,
        revision_of(run.before().files[cleaned(args.path@, false)->Ok_0]),
    );
}

} // verus!
