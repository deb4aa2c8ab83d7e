//! What holds of every request, whatever it asks for.

use vstd::prelude::*;
use crate::disk::{same_items, Disk, Run};
use crate::laws::reads::free_of_links;
use crate::laws::writes::lemma_temp;
use crate::paths::{cleaned, confined, displayed};
use crate::protocol::{Action, Event};
use crate::reading::{read_action, read_next, ReadNext, ReadPhase};
use crate::server::{starts_create, starts_list, starts_read, FilesystemServer};
use crate::tasks::{
    starts_write, task_action, task_next, CreatePhase, ListPhase, Purpose, Step, Task,
};
use crate::writing::{write_action, TempPhase, WriteJob, WritePhase};

verus! {

/// What a client can ask for.
pub ghost enum Request {
    Read { raw: Seq<char>, purpose: Purpose },
    List { raw: Seq<char> },
    Write { raw: Seq<char>, content: Seq<char>, overwrite: bool, expected: Option<Seq<char>> },
    CreateDir { raw: Seq<char> },
}

impl Request {
    /// Whether `step` is what the server starts this request with.
    pub open spec fn starts(self, step: Step, server: FilesystemServer) -> bool {
        match self {
            Request::Read { raw, purpose } => {
                &&& starts_read(step, raw, purpose)
                &&& purpose matches Purpose::Patch(args) ==> args.path@ == raw
            },
            Request::List { raw } => starts_list(step, raw),
            Request::Write { raw, content, overwrite, expected } => starts_write(
                step,
                server,
                raw,
                content,
                overwrite,
                expected,
            ),
            Request::CreateDir { raw } => starts_create(step, server, raw),
        }
    }

    /// The path that this request is about, or the message with which it is refused.
    pub open spec fn path(self) -> Result<Seq<Seq<char>>, Seq<char>> {
        match self {
            Request::Read { raw, .. } => cleaned(raw, false),
            Request::List { raw } => cleaned(raw, true),
            Request::Write { raw, .. } => cleaned(raw, false),
            Request::CreateDir { raw } => cleaned(raw, false),
        }
    }
}

/// Whether a piece of work touches nothing but what is below the exposed directory.
pub open spec fn stays_below(action: Action) -> bool {
    match action {
        Action::Inspect { path } => confined(path@),
        Action::OpenFile { path } => confined(path@),
        Action::OpenDir { path } => confined(path@),
        Action::Lock { path } => confined(path@),
        Action::CreateFile { path } => confined(path@),
        Action::RemoveFile { path } => confined(path@),
        Action::Rename { from, to } => confined(from@) && confined(to@),
        Action::CreateDirs { path } => confined(path@),
        _ => true,
    }
}

/// Nothing is ever asked of the disk outside the exposed directory: no path that is used can lead
/// out of it, whatever the disk answers.
pub proof fn law_actions_stay_below(server: FilesystemServer, task: Task, action: Action)
    requires
        task.fits(server),
        task_action(server, task, action),
    ensures
        stays_below(action),
{
    match task {
        Task::Write { job, phase } => match phase {
            WritePhase::Replacing(temp, _) => lemma_temp(temp@, job.path@),
            WritePhase::Discarding(temp, _) => lemma_temp(temp@, job.path@),
            _ => {},
        },
        _ => {},
    }
}

/// Whether a piece of work changes what is below the exposed directory.
pub open spec fn changes(action: Action) -> bool {
    ||| action is CreateFile
    ||| action is WriteFile
    ||| action is RemoveFile
    ||| action is Rename
    ||| action is CreateDirs
}

spec fn only_looks(step: Step) -> bool {
    step matches Step::Wait(task) ==> task is Read || task is List
}

proof fn lemma_read_only_run(run: Run, i: int)
    requires
        run.wf(),
        run.server.read_only,
        only_looks(run.steps[0]),
        0 <= i < run.steps.len(),
    ensures
        only_looks(run.steps[i]),
        same_items(run.before(), run.disks[i]),
    decreases i,
{
    if i > 0 {
        lemma_read_only_run(run, i - 1);
        assert(run.goes(i - 1));
    }
}

/// A read-only server changes nothing: whatever it is asked for, it has the disk do nothing that
/// would change a file or a directory.
pub proof fn law_read_only_server_changes_nothing(run: Run, request: Request)
    requires
        run.wf(),
        run.server.read_only,
        request.starts(run.steps[0], run.server),
    ensures
        forall|i: int| 0 <= i < run.actions.len() ==> !changes(#[trigger] run.actions[i]),
        same_items(run.before(), run.after()),
{
    assert forall|i: int| 0 <= i < run.actions.len() implies !changes(
        #[trigger] run.actions[i],
    ) by {
        lemma_read_only_run(run, i);
        assert(run.goes(i));
    }
    lemma_read_only_run(run, run.steps.len() - 1);
}

/// Whether `task` waits for a look at the first `m` parts of `path`.
spec fn walks(task: Task, path: Seq<Seq<char>>, m: int) -> bool {
    match task {
        Task::Read { path: p, phase, .. } => p@ == path && phase == ReadPhase::Walking(m as usize),
        Task::Write { job, phase } => job.path@ == path && phase == WritePhase::Walking(m as usize),
        Task::List { path: p, phase } => p@ == path && phase == ListPhase::Walking(m as usize),
        Task::CreateDir { path: p, phase } => p@ == path && phase == CreatePhase::Walking(
            m as usize,
        ),
    }
}

spec fn still_walks(step: Step, path: Seq<Seq<char>>, n: int) -> bool {
    match step {
        Step::Wait(task) => exists|m: int|
            1 <= m <= n && #[trigger] walks(task, path, m),
        Step::Done(Ok(_)) => false,
        Step::Done(Err(_)) => true,
    }
}

proof fn lemma_link_run(run: Run, path: Seq<Seq<char>>, n: int, i: int)
    requires
        run.wf(),
        0 < n <= path.len() <= usize::MAX,
        run.before().links.contains(path.take(n)),
        still_walks(run.steps[0], path, n),
        0 <= i < run.steps.len(),
    ensures
        still_walks(run.steps[i], path, n),
        run.disks[i] == run.before(),
        i < run.actions.len() ==> run.actions[i] is Inspect,
    decreases i,
{
    if i > 0 {
        let k = i - 1;
        lemma_link_run(run, path, n, k);
        assert(run.goes(k));
        let task = run.steps[k]->Wait_0;
        let m = choose|m: int| 1 <= m <= n && #[trigger] walks(task, path, m);
        assert(path.take(m).is_prefix_of(path.take(n))) by {
            assert(path.take(n).subrange(0, m) =~= path.take(m));
        }
        assert(run.before().has(path.take(n)));
        match run.steps[i] {
            Step::Wait(next) => {
                assert(m < n && walks(next, path, m + 1));
            },
            _ => {},
        }
    }
    if i < run.actions.len() {
        assert(run.goes(i));
    }
}

/// No symlink is followed: where a part of the path is one, nothing is asked of the disk but what
/// the parts of the path are, nothing changes, and the request does not succeed.
pub proof fn law_symlinks_are_refused(run: Run, request: Request, n: int)
    requires
        run.wf(),
        request.starts(run.steps[0], run.server),
        request.path() matches Ok(path) ==> 0 < n <= path.len() && run.before().links.contains(
            path.take(n),
        ),
    ensures
        forall|i: int| 0 <= i < run.actions.len() ==> #[trigger] run.actions[i] is Inspect,
        run.after() == run.before(),
        !(run.now() matches Step::Done(Ok(_))),
{
    let last = run.steps.len() - 1;
    if run.steps[0] is Done {
        if run.events.len() > 0 {
            assert(run.goes(0));
        }
    } else {
        let path = request.path()->Ok_0;
        assert(walks(run.steps[0]->Wait_0, path, 1));
        assert forall|i: int| 0 <= i < run.actions.len() implies #[trigger] run.actions[i]
            is Inspect by {
            lemma_link_run(run, path, n, i);
        }
        lemma_link_run(run, path, n, last);
    }
}

/// A refusal because of a symlink names the first one on the way: unless a part of the path cannot be
/// looked at, the message gives the path as far as that symlink.
pub proof fn law_first_symlink_is_named(run: Run, request: Request, n: int)
    requires
        run.wf(),
        request.starts(run.steps[0], run.server),
        run.steps[0] is Wait,
        request.path() matches Ok(path) && {
            &&& 0 < n <= path.len()
            &&& run.before().links.contains(path.take(n))
            &&& forall|m: int| 0 < m < n ==> !run.before().links.contains(#[trigger] path.take(m))
        },
        forall|i: int|
            0 <= i < run.events.len() ==> !(#[trigger] run.events[i] is Failed),
        run.now() is Done,
    ensures
        run.now().refuses(
            "path contains a symlink component: "@ + displayed(request.path()->Ok_0.take(n)),
        ),
{
    let last = run.steps.len() - 1;
    let k = last - 1;
    let path = request.path()->Ok_0;
    assert(walks(run.steps[0]->Wait_0, path, 1));
    lemma_link_run(run, path, n, k);
    assert(run.goes(k));
    assert(!(run.events[k] is Failed));
    let task = run.steps[k]->Wait_0;
    let m = choose|m: int| 1 <= m <= n && #[trigger] walks(task, path, m);
    assert(path.take(m).is_prefix_of(path.take(n))) by {
        assert(path.take(n).subrange(0, m) =~= path.take(m));
    }
    assert(run.before().has(path.take(n)));
    assert(m < n ==> !run.before().links.contains(path.take(m)));
}

/// Where a request succeeds, no part of its path was a symlink.
pub proof fn law_success_is_free_of_links(run: Run, request: Request)
    requires
        run.wf(),
        request.starts(run.steps[0], run.server),
        run.now() matches Step::Done(Ok(_)),
    ensures
        request.path() matches Ok(path) && free_of_links(run.before(), path),
{
    if run.events.len() > 0 {
        assert(run.goes(0));
    }
    let path = request.path()->Ok_0;
    assert forall|n: int| 0 < n <= path.len() implies !run.before().links.contains(
        #[trigger] path.take(n),
    ) by {
        if run.before().links.contains(path.take(n)) {
            law_symlinks_are_refused(run, request, n);
        }
    }
}

/// Whether a step is about `path`.
spec fn about(step: Step, path: Seq<Seq<char>>) -> bool {
    match step {
        Step::Done(_) => true,
        Step::Wait(Task::Read { purpose, path: p, .. }) => {
            &&& p@ == path
            &&& purpose matches Purpose::Patch(args) ==> cleaned(args.path@, false) == Ok::<
                _,
                Seq<char>,
            >(path)
        },
        Step::Wait(Task::Write { job, .. }) => job.path@ == path,
        Step::Wait(Task::List { path: p, .. }) => p@ == path,
        Step::Wait(Task::CreateDir { path: p, .. }) => p@ == path,
    }
}

/// Whether the lock of `path` was asked for and had before the `i`th action.
pub open spec fn has_lock(run: Run, path: Seq<Seq<char>>, i: int) -> bool {
    exists|j: int|
        0 <= j < i && (#[trigger] run.actions[j] matches Action::Lock { path: p } && p@ == path)
            && run.events[j] is Done
}

/// Whether the `i`th step is about `path`, and has the lock where it needs one.
spec fn locks_first(run: Run, path: Seq<Seq<char>>, i: int) -> bool {
    &&& about(run.steps[i], path)
    &&& run.steps[i] matches Step::Wait(Task::Write { phase, .. }) ==> {
        phase is Walking || phase is Locking || has_lock(run, path, i)
    }
}

proof fn lemma_lock_run(run: Run, path: Seq<Seq<char>>, i: int)
    requires
        run.wf(),
        locks_first(run, path, 0),
        0 <= i < run.steps.len(),
    ensures
        locks_first(run, path, i),
    decreases i,
{
    if i > 0 {
        let k = i - 1;
        lemma_lock_run(run, path, k);
        assert(run.goes(k));
        match run.steps[k] {
            Step::Wait(Task::Write { job, phase }) => match run.steps[i] {
                Step::Wait(Task::Write { job: j, phase: next }) => {
                    if phase is Locking && !(next is Locking) {
                        assert(run.actions[k] matches Action::Lock { path: p } && p@ == path);
                        assert(has_lock(run, path, i));
                    } else if !(phase is Walking || phase is Locking) {
                        let l = choose|l: int|
                            0 <= l < k && (#[trigger] run.actions[l] matches Action::Lock {
                                path: p,
                            } && p@ == path) && run.events[l] is Done;
                        assert(has_lock(run, path, i)) by {
                            assert(run.actions[l] is Lock);
                        }
                    }
                },
                _ => {},
            },
            _ => {},
        }
    }
}

/// No file is changed by a writer whose turn it is not: before the disk is asked to create, write,
/// remove or rename a file, the lock of the file that the request is about was asked for and had.
pub proof fn law_files_change_under_lock(run: Run, request: Request, i: int)
    requires
        run.wf(),
        request.starts(run.steps[0], run.server),
        0 <= i < run.actions.len(),
        changes(run.actions[i]),
        !(run.actions[i] is CreateDirs),
    ensures
        request.path() matches Ok(path) && has_lock(run, path, i),
{
    assert(run.goes(0));
    lemma_lock_run(run, request.path()->Ok_0, i);
    assert(run.goes(i));
}

/// How many answers the reading of `path` waits for, at most.
spec fn read_left(path: Seq<Seq<char>>, phase: ReadPhase) -> int {
    match phase {
        ReadPhase::Walking(n) => path.len() - n + 4,
        ReadPhase::Opening => 3,
        ReadPhase::Inspecting => 2,
        ReadPhase::Reading => 1,
    }
}

/// How many answers the writing of `path` waits for, at most.
spec fn write_left(path: Seq<Seq<char>>, phase: WritePhase) -> int {
    let look: int = path.len() as int + 3;
    match phase {
        WritePhase::Walking(n) => path.len() - n + 7 + 2 * look,
        WritePhase::Locking => 6 + 2 * look,
        WritePhase::Checking(reading) => 5 + look + read_left(path, reading),
        WritePhase::Creating => 3,
        WritePhase::Writing => 2,
        WritePhase::Syncing => 1,
        WritePhase::Replacing(_, TempPhase::Creating) => 5 + look,
        WritePhase::Replacing(_, TempPhase::Writing) => 4 + look,
        WritePhase::Replacing(_, TempPhase::Syncing) => 3 + look,
        WritePhase::Replacing(_, TempPhase::Rechecking(reading)) => 2 + read_left(path, reading),
        WritePhase::Replacing(_, TempPhase::Renaming) => 2,
        WritePhase::Discarding(_, _) => 1,
    }
}

/// How many answers a request about `path` waits for, at most.
spec fn left(server: FilesystemServer, path: Seq<Seq<char>>, step: Step) -> int {
    let max = server.max_dir_entries;
    match step {
        Step::Done(_) => 0,
        Step::Wait(Task::Read { phase, .. }) => read_left(path, phase) + write_left(
            path,
            WritePhase::Walking(1),
        ),
        Step::Wait(Task::Write { phase, .. }) => write_left(path, phase),
        Step::Wait(Task::List { phase, .. }) => match phase {
            ListPhase::Walking(n) => path.len() - n + 4 + 2 * max,
            ListPhase::Opening => 3 + 2 * max,
            ListPhase::Listing => 2 + 2 * max,
            ListPhase::Next(entries) => 1 + 2 * (max - entries@.len()),
            ListPhase::Inspecting(entries, _) => 2 * (max - entries@.len()),
        },
        Step::Wait(Task::CreateDir { phase, .. }) => match phase {
            CreatePhase::Walking(n) => path.len() - n + 2,
            CreatePhase::Creating => 1,
        },
    }
}

/// The most answers that any request waits for about a path of `parts` parts, on a server that
/// lists at most `max_dir_entries` entries.
pub open spec fn most_answers(parts: nat, max_dir_entries: usize) -> int {
    4 * parts + 15 + 2 * max_dir_entries
}

/// Whether an answer that a disk may give leads on in a task.
spec fn progresses(server: FilesystemServer, path: Seq<Seq<char>>, task: Task, step: Step) -> bool {
    &&& about(step, path)
    &&& 0 <= left(server, path, step) < left(server, path, Step::Wait(task))
}

proof fn lemma_read_progress(
    server: FilesystemServer,
    path: Seq<Seq<char>>,
    phase: ReadPhase,
    action: Action,
    event: Event,
    before: Disk,
    after: Disk,
)
    requires
        phase.fits(path),
        path.len() <= usize::MAX,
        read_action(server.max_file_bytes, path, phase, action),
        before.may_answer(action, event, after),
    ensures
        read_next(server.max_file_bytes, path, phase, event) matches ReadNext::Wait(next) ==> {
            &&& next.fits(path)
            &&& 0 < read_left(path, next) < read_left(path, phase)
        },
        0 < read_left(path, phase) <= path.len() + 3,
{
}

proof fn lemma_write_progress(
    server: FilesystemServer,
    job: WriteJob,
    phase: WritePhase,
    action: Action,
    event: Event,
    step: Step,
    before: Disk,
    after: Disk,
)
    requires
        phase.fits(server.max_file_bytes, job),
        write_action(server.max_file_bytes, job, phase, action),
        before.may_answer(action, event, after),
        task_next(step, server, Task::Write { job, phase }, event),
    ensures
        progresses(server, job.path@, Task::Write { job, phase }, step),
{
    let path = job.path@;
    match phase {
        WritePhase::Checking(reading) => {
            lemma_read_progress(server, path, reading, action, event, before, after);
        },
        WritePhase::Replacing(_, TempPhase::Rechecking(reading)) => {
            lemma_read_progress(server, path, reading, action, event, before, after);
        },
        _ => {},
    }
}

proof fn lemma_progress(run: Run, path: Seq<Seq<char>>, i: int)
    requires
        run.wf(),
        about(run.steps[0], path),
        0 <= i < run.steps.len(),
    ensures
        about(run.steps[i], path),
        i > 0 ==> 0 <= left(run.server, path, run.steps[i]),
        left(run.server, path, run.steps[i]) + i <= left(run.server, path, run.steps[0]),
    decreases i,
{
    if i > 0 {
        let k = i - 1;
        lemma_progress(run, path, k);
        assert(run.goes(k));
        if k > 0 {
            assert(run.goes(k - 1));
        }
        let task = run.steps[k]->Wait_0;
        let step = run.steps[i];
        let action = run.actions[k];
        let event = run.events[k];
        let before = run.disks[k];
        let after = run.disks[i];
        match task {
            Task::Read { phase, .. } => {
                lemma_read_progress(run.server, path, phase, action, event, before, after);
                assert(progresses(run.server, path, task, step));
            },
            Task::Write { job, phase } => {
                lemma_write_progress(run.server, job, phase, action, event, step, before, after);
            },
            Task::List { phase, .. } => {
                assert(progresses(run.server, path, task, step));
            },
            Task::CreateDir { phase, .. } => {
                assert(progresses(run.server, path, task, step));
            },
        }
    }
}

/// Every request comes to an end: the disk is asked for something only so many times.
pub proof fn law_requests_end(run: Run, request: Request)
    requires
        run.wf(),
        request.starts(run.steps[0], run.server),
    ensures
        run.events.len() <= match request.path() {
            Ok(path) => most_answers(path.len(), run.server.max_dir_entries),
            Err(_) => 0,
        },
{
    if run.events.len() > 0 {
        assert(run.goes(0));
        lemma_progress(run, request.path()->Ok_0, run.steps.len() - 1);
    }
}

} // verus!
