//! What holds of two requests that write to one file at the same time.

use vstd::prelude::*;
use vstd::utf8::encode_utf8;
use crate::disk::Disk;
use crate::laws::reads::{lemma_read_step, read_inv, readable};
use crate::laws::revisions::refused_as_stale;
use crate::laws::writes::{
    first_job, lemma_smooth_write_step, lemma_write_step, succeeding, writable, write_state,
};
use crate::messages::law_stale_messages_are_retryable;
use crate::paths::{cleaned, confined, law_clean_path_is_confined};
use crate::protocol::{Action, Event};
use crate::revision::revision_of;
use crate::server::{goes_on, FilesystemServer};
use crate::tasks::{starts_write, task_action, task_next, Step, Task};
use crate::writing::{WriteJob, WritePhase};

verus! {

/// Two requests on one server that go on side by side: at each moment, it is the turn of one of
/// them. What followed in each, whose turn it was, what was asked of the disk, what it answered, and
/// the state that it was in then. Nothing else changes the disk.
pub ghost struct Race {
    pub server: FilesystemServer,
    pub first: Seq<Step>,
    pub second: Seq<Step>,
    pub firsts_turn: Seq<bool>,
    pub actions: Seq<Action>,
    pub events: Seq<Event>,
    pub disks: Seq<Disk>,
}

/// Whether a request holds the lock of `path`: it has had it, and is not over.
pub open spec fn holds_lock(step: Step, path: Seq<Seq<char>>) -> bool {
    &&& step matches Step::Wait(Task::Write { job, phase })
    &&& job.path@ == path
    &&& !(phase is Walking)
    &&& !(phase is Locking)
}

/// Whether one request goes on from `step` to `next` while the other one is at `other`: the disk
/// answers as it may, and gives no lock that the other one holds.
pub open spec fn goes_beside(
    server: FilesystemServer,
    step: Step,
    next: Step,
    other: Step,
    action: Action,
    event: Event,
    before: Disk,
    after: Disk,
) -> bool {
    &&& step matches Step::Wait(task)
    &&& task_action(server, task, action)
    &&& before.may_answer(action, event, after)
    &&& action matches Action::Lock { path } ==> !holds_lock(other, path@)
    &&& task_next(next, server, task, event)
    &&& goes_on(next, server)
}

impl Race {
    /// Whether one of the two goes on at the `i`th moment, and the other one stays where it is.
    pub open spec fn goes(self, i: int) -> bool {
        if self.firsts_turn[i] {
            &&& goes_beside(
                self.server,
                self.first[i],
                self.first[i + 1],
                self.second[i],
                self.actions[i],
                self.events[i],
                self.disks[i],
                self.disks[i + 1],
            )
            &&& self.second[i + 1] == self.second[i]
        } else {
            &&& goes_beside(
                self.server,
                self.second[i],
                self.second[i + 1],
                self.first[i],
                self.actions[i],
                self.events[i],
                self.disks[i],
                self.disks[i + 1],
            )
            &&& self.first[i + 1] == self.first[i]
        }
    }

    /// Whether each moment follows from the one before.
    pub open spec fn wf(self) -> bool {
        &&& self.first.len() == self.events.len() + 1
        &&& self.second.len() == self.events.len() + 1
        &&& self.disks.len() == self.events.len() + 1
        &&& self.actions.len() == self.events.len()
        &&& self.firsts_turn.len() == self.events.len()
        &&& goes_on(self.first[0], self.server)
        &&& goes_on(self.second[0], self.server)
        &&& forall|i: int| 0 <= i < self.events.len() ==> #[trigger] self.goes(i)
    }

    /// Whether nothing that was asked of the disk failed.
    pub open spec fn smooth(self) -> bool {
        forall|i: int| 0 <= i < self.events.len() ==> !(#[trigger] self.events[i] is Failed)
    }

    /// The disk before both requests.
    pub open spec fn before(self) -> Disk {
        self.disks[0]
    }

    /// The disk as it is now.
    pub open spec fn after(self) -> Disk {
        self.disks.last()
    }
}

/// Whether a writer has not had its turn yet.
spec fn outside(step: Step, job: WriteJob) -> bool {
    &&& step matches Step::Wait(Task::Write { job: j, phase })
    &&& j == job
    &&& phase is Walking || phase is Locking
}

/// Whether two writers can meet in a race that one of them is to win: both know the revision that
/// the file has, and both are to change it.
spec fn can_race(server: FilesystemServer, start: Disk, job: WriteJob, rival: WriteJob) -> bool {
    &&& job.path@ == rival.path@
    &&& job.path@.len() > 0
    &&& confined(job.path@)
    &&& job.expected is Some
    &&& rival.expected is Some
    &&& job.expected->Some_0@ == rival.expected->Some_0@
    &&& writable(server, start, job)
    &&& writable(server, start, rival)
    &&& job.overwrite
    &&& rival.overwrite
    &&& revision_of(job.bytes()) != job.expected->Some_0@
    &&& revision_of(rival.bytes()) != job.expected->Some_0@
}

/// What holds of the writer that comes behind, on a disk on which the other one has had its way.
spec fn trails(server: FilesystemServer, job: WriteJob, step: Step, disk: Disk) -> bool {
    ||| outside(step, job)
    ||| {
        &&& step matches Step::Wait(Task::Write { job: j, phase: WritePhase::Checking(reading) })
        &&& j == job
        &&& read_inv(server.max_file_bytes, job.path@, reading, disk)
    }
    ||| refused_as_stale(step)
}

/// What holds where the writer of `job` is ahead of its rival: it writes while the other one waits,
/// or has had its way.
spec fn leads(
    server: FilesystemServer,
    start: Disk,
    job: WriteJob,
    rival: WriteJob,
    step: Step,
    rivals_step: Step,
    disk: Disk,
) -> bool {
    ||| {
        &&& holds_lock(step, job.path@)
        &&& write_state(server, start, job, step, disk)
        &&& succeeding(step)
        &&& outside(rivals_step, rival)
    }
    ||| {
        &&& step matches Step::Done(Ok(_))
        &&& write_state(server, start, job, step, disk)
        &&& trails(server, rival, rivals_step, disk)
    }
}

/// What holds at each moment of a race.
spec fn race_state(
    server: FilesystemServer,
    start: Disk,
    job: WriteJob,
    rival: WriteJob,
    step: Step,
    rivals_step: Step,
    disk: Disk,
) -> bool {
    ||| {
        &&& outside(step, job)
        &&& outside(rivals_step, rival)
        &&& write_state(server, start, job, step, disk)
    }
    ||| leads(server, start, job, rival, step, rivals_step, disk)
    ||| leads(server, start, rival, job, rivals_step, step, disk)
}

/// A writer that looks at the file once the other one has had its way is refused.
proof fn lemma_trailing_step(
    server: FilesystemServer,
    start: Disk,
    job: WriteJob,
    rival: WriteJob,
    winner: Step,
    step: Step,
    next: Step,
    action: Action,
    event: Event,
    before: Disk,
    after: Disk,
)
    requires
        can_race(server, start, job, rival),
        winner matches Step::Done(Ok(_)),
        write_state(server, start, rival, winner, before),
        trails(server, job, step, before),
        goes_on(step, server),
        !(event is Failed),
        goes_beside(server, step, next, winner, action, event, before, after),
    ensures
        write_state(server, start, rival, winner, after),
        trails(server, job, next, after),
{
    let max = server.max_file_bytes;
    let path = job.path@;
    let phase = step->Wait_0->Write_phase;
    law_stale_messages_are_retryable(job.expected->Some_0@, revision_of(rival.bytes()));
    match phase {
        WritePhase::Walking(n) => {
            assert(!start.links.contains(path.take(n as int)));
            assert(!before.links.contains(path.take(n as int)));
        },
        WritePhase::Checking(reading) => {
            lemma_read_step(max, path, reading, action, event, before, after);
            assert(before.files[path] == rival.bytes());
        },
        _ => {},
    }
}

/// One of two writers goes on.
proof fn lemma_race_step(
    server: FilesystemServer,
    start: Disk,
    job: WriteJob,
    rival: WriteJob,
    step: Step,
    next: Step,
    rivals_step: Step,
    action: Action,
    event: Event,
    before: Disk,
    after: Disk,
)
    requires
        can_race(server, start, job, rival),
        race_state(server, start, job, rival, step, rivals_step, before),
        goes_on(step, server),
        goes_on(rivals_step, server),
        !(event is Failed),
        goes_beside(server, step, next, rivals_step, action, event, before, after),
    ensures
        race_state(server, start, job, rival, next, rivals_step, after),
{
    let phase = step->Wait_0->Write_phase;
    if leads(server, start, rival, job, rivals_step, step, before) {
        if rivals_step is Done {
            lemma_trailing_step(
                server,
                start,
                job,
                rival,
                rivals_step,
                step,
                next,
                action,
                event,
                before,
                after,
            );
        } else {
            assert(phase is Walking);
            let n = phase->Walking_0;
            assert(!start.links.contains(job.path@.take(n as int)));
            assert(after == before);
            assert(outside(next, job));
        }
    } else {
        lemma_write_step(server, start, job, phase, action, event, next, before, after);
        lemma_smooth_write_step(server, start, job, phase, action, event, next, before, after);
    }
}

proof fn lemma_race(race: Race, job: WriteJob, rival: WriteJob, i: int)
    requires
        race.wf(),
        race.smooth(),
        can_race(race.server, race.before(), job, rival),
        race_state(
            race.server,
            race.before(),
            job,
            rival,
            race.first[0],
            race.second[0],
            race.before(),
        ),
        0 <= i < race.disks.len(),
    ensures
        race_state(
            race.server,
            race.before(),
            job,
            rival,
            race.first[i],
            race.second[i],
            race.disks[i],
        ),
        goes_on(race.first[i], race.server),
        goes_on(race.second[i], race.server),
    decreases i,
{
    if i > 0 {
        let k = i - 1;
        lemma_race(race, job, rival, k);
        assert(race.goes(k));
        assert(!(race.events[k] is Failed));
        if race.firsts_turn[k] {
            lemma_race_step(
                race.server,
                race.before(),
                job,
                rival,
                race.first[k],
                race.first[i],
                race.second[k],
                race.actions[k],
                race.events[k],
                race.disks[k],
                race.disks[i],
            );
        } else {
            lemma_race_step(
                race.server,
                race.before(),
                rival,
                job,
                race.second[k],
                race.second[i],
                race.first[k],
                race.actions[k],
                race.events[k],
                race.disks[k],
                race.disks[i],
            );
        }
    }
}

/// Whether one of two writers had its way and the other one did not: one succeeded, the other one is
/// refused as stale, and the file holds what the first of these was to write.
pub open spec fn won(
    winner: Step,
    loser: Step,
    start: Disk,
    disk: Disk,
    path: Seq<Seq<char>>,
    bytes: Seq<u8>,
) -> bool {
    &&& winner matches Step::Done(Ok(_))
    &&& refused_as_stale(loser)
    &&& disk.files == start.files.insert(path, bytes)
}

/// Of two requests to replace a file that know the same revision of it, exactly one has its way,
/// however their turns come. With no symlink on the way, both contents within the limit and nothing
/// failing, one succeeds and the file holds its content; the other one is refused with a message by
/// which its client knows to look at the file again. (Both contents are taken to have another
/// revision than the file had.)
pub proof fn law_one_of_two_writers_wins(
    race: Race,
    raw: Seq<char>,
    other_raw: Seq<char>,
    content: Seq<char>,
    other_content: Seq<char>,
    expected: Seq<char>,
)
    requires
        race.wf(),
        race.smooth(),
        starts_write(race.first[0], race.server, raw, content, true, Some(expected)),
        starts_write(race.second[0], race.server, other_raw, other_content, true, Some(expected)),
        !race.server.read_only,
        cleaned(raw, false) is Ok,
        cleaned(other_raw, false) == cleaned(raw, false),
        readable(race.before(), cleaned(raw, false)->Ok_0, race.server.max_file_bytes),
        revision_of(race.before().files[cleaned(raw, false)->Ok_0]) == expected,
        encode_utf8(content).len() <= race.server.max_file_bytes,
        encode_utf8(other_content).len() <= race.server.max_file_bytes,
        revision_of(encode_utf8(content)) != expected,
        revision_of(encode_utf8(other_content)) != expected,
        race.first.last() is Done,
        race.second.last() is Done,
    ensures
        ({
            let path = cleaned(raw, false)->Ok_0;
            let first = race.first.last();
            let second = race.second.last();
            ||| won(first, second, race.before(), race.after(), path, encode_utf8(content))
            ||| won(second, first, race.before(), race.after(), path, encode_utf8(other_content))
        }),
{
    law_clean_path_is_confined(raw, false);
    let job = first_job(race.first[0]);
    let rival = first_job(race.second[0]);
    assert(can_race(race.server, race.before(), job, rival));
    lemma_race(race, job, rival, race.disks.len() - 1);
}

} // verus!
