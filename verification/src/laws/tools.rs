//! What each tool does, from the request to the answer, where nothing fails on the disk.

use vstd::prelude::*;
use vstd::utf8::{encode_utf8, is_char_boundary, valid_utf8};
use crate::content::{
    describes_search, law_patch_is_accepted_or_refused, law_range_is_what_was_asked_for,
    spliced, PatchTextFileArgs, ReadRangeArgs, SearchTextArgs,
};
use crate::disk::{same_items, Disk, Run};
use crate::laws::directories::{is_entry, law_listings_succeed, more_than, names};
use crate::laws::patches::{
    law_patch_takes_effect, law_patches_succeed, law_refused_patch_keeps_files,
};
use crate::laws::reads::{
    free_of_links, law_reads_succeed, lemma_read_step, lemma_read_step_succeeds, read_inv, readable,
};
use crate::laws::writes::{
    first_job, law_file_is_not_its_temporary_file, law_write_takes_effect, lemma_temp,
    lemma_write_run, write_state,
};
use crate::listing::{law_listing_is_ordered_by_bytes, parts_at};
use crate::paths::{cleaned, displayed, law_clean_path_is_confined, RelPath};
use crate::protocol::{Action, Event};
use crate::reading::ReadPhase;
use crate::revision::revision_of;
use crate::server::{starts_list, starts_read, FilesystemServer};
use crate::tasks::{starts_write, task_action, task_next, Output, Purpose, Step, Task};
use crate::text::decimal;
use crate::writing::{TempPhase, WriteJob, WritePhase};

verus! {

/// A text file is read as it is: the answer is the text that the file's bytes encode. What is no
/// text is refused.
pub proof fn law_read_text_file(run: Run, raw: Seq<char>, path: Seq<Seq<char>>)
    requires
        run.wf(),
        starts_read(run.steps[0], raw, Purpose::Text),
        cleaned(raw, false) == Ok::<_, Seq<char>>(path),
        readable(run.before(), path, run.server.max_file_bytes),
        run.smooth(),
        run.now() is Done,
    ensures
        if valid_utf8(run.before().files[path]) {
            &&& run.now() matches Step::Done(Ok(Output::Text(text)))
            &&& encode_utf8(text@) == run.before().files[path]
        } else {
            run.now().refuses("file is not valid UTF-8; this server reads text only"@)
        },
{
    law_reads_succeed(run, raw, Purpose::Text);
}

/// The metadata of a file are its path, the number of its bytes and their revision, whatever they
/// are.
pub proof fn law_file_metadata(run: Run, raw: Seq<char>, path: Seq<Seq<char>>)
    requires
        run.wf(),
        starts_read(run.steps[0], raw, Purpose::Metadata),
        cleaned(raw, false) == Ok::<_, Seq<char>>(path),
        readable(run.before(), path, run.server.max_file_bytes),
        run.smooth(),
        run.now() is Done,
    ensures
        run.now() matches Step::Done(Ok(Output::Metadata(m))) && {
            &&& m.path@ == displayed(path)
            &&& m.size_bytes == run.before().files[path].len()
            &&& m.revision@ == revision_of(run.before().files[path])
        },
{
    law_reads_succeed(run, raw, Purpose::Metadata);
}

/// A part of a file is what was asked for: `max_bytes` bytes from `offset` on, or all that there are
/// where they are fewer, with the metadata of the whole file. It is refused where that is no text,
/// where it would start behind the end of the file, and where it asks for nothing or for more than a
/// file may have.
pub proof fn law_read_text_file_range(run: Run, args: ReadRangeArgs, path: Seq<Seq<char>>)
    requires
        run.wf(),
        if args.max_bytes == 0 || args.max_bytes > run.server.max_file_bytes {
            run.steps[0].refuses(
                "max_bytes must be between 1 and "@ + decimal(run.server.max_file_bytes as nat),
            )
        } else {
            starts_read(run.steps[0], args.path@, Purpose::Range(args))
        },
        cleaned(args.path@, false) == Ok::<_, Seq<char>>(path),
        readable(run.before(), path, run.server.max_file_bytes),
        args.offset <= usize::MAX,
        args.max_bytes <= usize::MAX,
        run.smooth(),
        run.now() is Done,
    ensures
        ({
            let bytes = run.before().files[path];
            let rest = bytes.skip(args.offset as int);
            let part = if args.max_bytes < rest.len() {
                rest.take(args.max_bytes as int)
            } else {
                rest
            };
            if args.max_bytes == 0 || args.max_bytes > run.server.max_file_bytes {
                run.now() matches Step::Done(Err(_))
            } else if args.offset > bytes.len() {
                run.now().refuses("offset is beyond end of file"@)
            } else if !valid_utf8(part) {
                run.now().refuses("requested range is not valid UTF-8 text"@)
            } else {
                &&& run.now() matches Step::Done(Ok(Output::Range(t)))
                &&& encode_utf8(t.text@) == part
                &&& t.truncated <==> args.offset + args.max_bytes < bytes.len()
                &&& t.offset == args.offset
                &&& t.path@ == displayed(path)
                &&& t.size_bytes == bytes.len()
                &&& t.revision@ == revision_of(bytes)
            }
        }),
{
    if args.max_bytes == 0 || args.max_bytes > run.server.max_file_bytes {
        if run.events.len() > 0 {
            assert(run.goes(0));
        }
    } else {
        law_reads_succeed(run, args.path@, Purpose::Range(args));
        if args.offset <= run.before().files[path].len() {
            law_range_is_what_was_asked_for(
                args.offset,
                args.max_bytes,
                run.before().files[path],
            );
        }
    }
}

/// A search in a text file gives its answer: one that describes what stands in the file, for every
/// query of 1 to 4096 bytes and every number of matches from 1 to 100. A file that is no text is
/// refused.
pub proof fn law_search_text(run: Run, args: SearchTextArgs, path: Seq<Seq<char>>)
    requires
        run.wf(),
        1 <= encode_utf8(args.query@).len() <= 4096,
        1 <= args.max_matches <= 100,
        starts_read(run.steps[0], args.path@, Purpose::Search(args)),
        cleaned(args.path@, false) == Ok::<_, Seq<char>>(path),
        readable(run.before(), path, run.server.max_file_bytes),
        run.smooth(),
        run.now() is Done,
    ensures
        if valid_utf8(run.before().files[path]) {
            &&& run.now() matches Step::Done(Ok(Output::Search(s)))
            &&& describes_search(
                s,
                path,
                run.before().files[path],
                encode_utf8(args.query@),
                args.max_matches as int,
            )
        } else {
            run.now().refuses("file is not valid UTF-8; this server searches text only"@)
        },
{
    law_reads_succeed(run, args.path@, Purpose::Search(args));
}

/// Whether the file has the revision that a writer expects of it, if it expects one.
pub open spec fn as_expected(disk: Disk, path: Seq<Seq<char>>, expected: Option<Seq<char>>) -> bool {
    expected matches Some(e) ==> revision_of(disk.files[path]) == e
}

/// What holds at each step of a writing in which nothing fails.
spec fn smooth_write_state(
    server: FilesystemServer,
    start: Disk,
    job: WriteJob,
    step: Step,
) -> bool {
    let path = job.path@;
    let changed = job.expected matches Some(e) && revision_of(start.files[path]) != e@;
    let large = job.bytes().len() > server.max_file_bytes;
    match step {
        Step::Wait(Task::Write { phase, .. }) => {
            ||| phase is Walking
            ||| phase is Locking
            ||| phase is Checking
            ||| !changed && !large && !(phase is Discarding)
        },
        Step::Wait(_) => false,
        Step::Done(Ok(_)) => !changed && !large,
        Step::Done(Err(_)) => if changed {
            step.refuses(
                "stale_revision: expected "@ + job.expected->Some_0@ + ", current "@ + revision_of(
                    start.files[path],
                ),
            )
        } else {
            &&& large
            &&& step.refuses(
                "content is "@ + decimal(job.bytes().len()) + " bytes; limit is "@ + decimal(
                    server.max_file_bytes as nat,
                ) + " bytes"@,
            )
        },
    }
}

proof fn lemma_smooth_write(run: Run, job: WriteJob, i: int)
    requires
        run.wf(),
        run.smooth(),
        write_state(run.server, run.before(), job, run.steps[0], run.before()),
        smooth_write_state(run.server, run.before(), job, run.steps[0]),
        free_of_links(run.before(), job.path@),
        job.expected is Some ==> readable(run.before(), job.path@, run.server.max_file_bytes),
        0 <= i < run.steps.len(),
    ensures
        smooth_write_state(run.server, run.before(), job, run.steps[i]),
    decreases i,
{
    if i > 0 {
        let k = i - 1;
        let start = run.before();
        let path = job.path@;
        let max = run.server.max_file_bytes;
        lemma_smooth_write(run, job, k);
        lemma_write_run(run, start, job, 0, k);
        assert(run.goes(k));
        if k > 0 {
            assert(run.goes(k - 1));
        }
        let action = run.actions[k];
        let event = run.events[k];
        let before = run.disks[k];
        let after = run.disks[i];
        assert(!(event is Failed));
        reveal_strlit("content");
        reveal_strlit(" is ");
        reveal_strlit("content is ");
        assert("content"@ + " is "@ =~= "content is "@);
        match run.steps[k]->Wait_0->Write_phase {
            WritePhase::Walking(n) => {
                assert(!start.links.contains(path.take(n as int)));
            },
            WritePhase::Checking(reading) => {
                lemma_read_step(max, path, reading, action, event, before, after);
                lemma_read_step_succeeds(
                    max,
                    path,
                    reading,
                    action,
                    event,
                    before,
                    after,
                );
            },
            WritePhase::Replacing(temp, TempPhase::Rechecking(reading)) => {
                lemma_temp(temp@, path);
                assert(before.files[path] == start.files[path]);
                lemma_read_step(max, path, reading, action, event, before, after);
                lemma_read_step_succeeds(
                    max,
                    path,
                    reading,
                    action,
                    event,
                    before,
                    after,
                );
            },
            _ => {},
        }
    }
}

/// A file is written as it was asked for: where the content is within the limit and the file has the
/// revision that is expected, if one is, the file holds the content and the answer tells so. A file
/// with another revision is left alone, and the message gives both; content beyond the limit is
/// refused with both sizes.
pub proof fn law_write_text_file(
    run: Run,
    raw: Seq<char>,
    content: Seq<char>,
    overwrite: bool,
    expected: Option<Seq<char>>,
    path: Seq<Seq<char>>,
)
    requires
        run.wf(),
        starts_write(run.steps[0], run.server, raw, content, overwrite, expected),
        !run.server.read_only,
        cleaned(raw, false) == Ok::<_, Seq<char>>(path),
        free_of_links(run.before(), path),
        expected is Some ==> readable(run.before(), path, run.server.max_file_bytes),
        run.smooth(),
        run.now() is Done,
    ensures
        ({
            let bytes = encode_utf8(content);
            let max = run.server.max_file_bytes;
            if !as_expected(run.before(), path, expected) {
                &&& run.now().refuses(
                    "stale_revision: expected "@ + expected->Some_0 + ", current "@ + revision_of(
                        run.before().files[path],
                    ),
                )
                &&& run.after().files == run.before().files
            } else if bytes.len() > max {
                &&& run.now().refuses(
                    "content is "@ + decimal(bytes.len()) + " bytes; limit is "@ + decimal(
                        max as nat,
                    ) + " bytes"@,
                )
                &&& run.after().files == run.before().files
            } else {
                &&& run.now() matches Step::Done(Ok(Output::Written(result)))
                &&& result.path@ == displayed(path)
                &&& result.size_bytes == bytes.len()
                &&& result.revision@ == revision_of(bytes)
                &&& run.after().files == run.before().files.insert(path, bytes)
            }
        }),
{
    law_clean_path_is_confined(raw, false);
    let job = first_job(run.steps[0]);
    let last = run.steps.len() - 1;
    lemma_smooth_write(run, job, last);
    lemma_smooth_write(run, job, last - 1);
    lemma_write_run(run, run.before(), job, 0, last - 1);
    assert(run.goes(last - 1));
    if run.now() matches Step::Done(Ok(_)) {
        law_write_takes_effect(run, raw, content, overwrite, expected);
    } else {
        match run.steps[last - 1]->Wait_0->Write_phase {
            WritePhase::Checking(reading) => {
                lemma_read_step(
                    run.server.max_file_bytes,
                    path,
                    reading,
                    run.actions[last - 1],
                    run.events[last - 1],
                    run.disks[last - 1],
                    run.disks[last],
                );
            },
            _ => {},
        }
    }
}

/// A text file is patched as it was asked for: where it has the expected revision, the range is
/// ordered, within the file and cuts no character, and the result is within the limit, the file holds
/// what was before the range, the replacement, and what was behind it. Otherwise the request is
/// refused and the file is as it was; a file with another revision is refused with both.
pub proof fn law_patch_text_file(run: Run, args: PatchTextFileArgs, path: Seq<Seq<char>>)
    requires
        run.wf(),
        starts_read(run.steps[0], args.path@, Purpose::Patch(args)),
        !run.server.read_only,
        cleaned(args.path@, false) == Ok::<_, Seq<char>>(path),
        readable(run.before(), path, run.server.max_file_bytes),
        run.before().files[path].len() <= usize::MAX,
        run.smooth(),
        run.now() is Done,
    ensures
        ({
            let bytes = run.before().files[path];
            let start = args.start_byte as int;
            let end = args.end_byte as int;
            let replacement = encode_utf8(args.replacement@);
            let result = bytes.take(start) + replacement + bytes.skip(end);
            if revision_of(bytes) != args.expected_revision@ {
                &&& run.now().refuses(
                    "stale_revision: expected "@ + args.expected_revision@ + ", current "@
                        + revision_of(bytes),
                )
                &&& run.after().files.contains_key(path)
                &&& run.after().files[path] == bytes
            } else if {
                &&& valid_utf8(bytes)
                &&& start <= end <= bytes.len()
                &&& is_char_boundary(bytes, start)
                &&& is_char_boundary(bytes, end)
                &&& bytes.len() - (end - start) + replacement.len() <= run.server.max_file_bytes
            } {
                &&& run.now() matches Step::Done(Ok(Output::Written(told)))
                &&& told.path@ == displayed(path)
                &&& told.size_bytes == result.len()
                &&& told.revision@ == revision_of(result)
                &&& run.after().files == run.before().files.insert(path, result)
            } else {
                &&& run.now() matches Step::Done(Err(_))
                &&& run.after().files.contains_key(path)
                &&& run.after().files[path] == bytes
            }
        }),
{
    let bytes = run.before().files[path];
    law_clean_path_is_confined(args.path@, false);
    law_file_is_not_its_temporary_file(path);
    law_patch_is_accepted_or_refused(args, bytes, run.server.max_file_bytes);
    law_patches_succeed(run, args);
    if run.now() matches Step::Done(Ok(_)) {
        law_patch_takes_effect(run, args);
        assert(spliced(
            bytes,
            args.start_byte as int,
            args.end_byte as int,
            encode_utf8(args.replacement@),
        ) =~= bytes.take(args.start_byte as int) + encode_utf8(args.replacement@) + bytes.skip(
            args.end_byte as int,
        ));
    } else {
        law_refused_patch_keeps_files(run, args, path);
    }
}

/// A directory with no more items than the limit allows is listed whole: every item is an entry, with
/// the kind that it has, and nothing else is. An earlier name is continued by a later one, or has the
/// smaller byte where they first differ in UTF-8.
pub proof fn law_list_directory(run: Run, raw: Seq<char>, path: Seq<Seq<char>>)
    requires
        run.wf(),
        starts_list(run.steps[0], raw),
        cleaned(raw, true) == Ok::<_, Seq<char>>(path),
        free_of_links(run.before(), path),
        !more_than(run.before(), path, run.server.max_dir_entries as int),
        run.smooth(),
        run.now() is Done,
    ensures
        ({
            let disk = run.before();
            &&& run.now() matches Step::Done(Ok(Output::Entries(entries)))
            &&& forall|i: int|
                0 <= i < entries@.len() ==> {
                    let item = path.push((#[trigger] entries@[i]).name@);
                    &&& disk.has(item)
                    &&& entries@[i].kind@ == (if disk.dirs.contains(item) {
                        "directory"@
                    } else if disk.files.contains_key(item) {
                        "file"@
                    } else if disk.links.contains(item) {
                        "symlink"@
                    } else {
                        "other"@
                    })
                }
            &&& forall|name: Seq<char>| #[trigger]
                disk.has(path.push(name)) ==> exists|i: int|
                    0 <= i < entries@.len() && (#[trigger] entries@[i]).name@ == name
            &&& forall|i: int, j: int|
                0 <= i < j < entries@.len() ==> {
                    &&& (#[trigger] entries@[i]).name@ != (#[trigger] entries@[j]).name@
                    &&& exists|k: int| #[trigger]
                        parts_at(
                            encode_utf8(entries@[i].name@),
                            encode_utf8(entries@[j].name@),
                            k,
                        )
                }
        }),
{
    law_listings_succeed(run, raw);
    let disk = run.before();
    let entries = run.now()->Done_0->Ok_0->Entries_0;
    assert forall|i: int| 0 <= i < entries@.len() implies {
        let item = path.push((#[trigger] entries@[i]).name@);
        &&& disk.has(item)
        &&& entries@[i].kind@ == (if disk.dirs.contains(item) {
            "directory"@
        } else if disk.files.contains_key(item) {
            "file"@
        } else if disk.links.contains(item) {
            "symlink"@
        } else {
            "other"@
        })
    } by {
        assert(is_entry(entries@[i], disk, path));
    }
    assert forall|name: Seq<char>| #[trigger] disk.has(path.push(name)) implies exists|i: int|
        0 <= i < entries@.len() && (#[trigger] entries@[i]).name@ == name by {
        assert(names(entries@).contains(name));
        let i = choose|i: int| 0 <= i < entries@.len() && names(entries@)[i] == name;
        assert(entries@[i].name@ == name);
    }
    assert forall|i: int, j: int| 0 <= i < j < entries@.len() implies {
        &&& (#[trigger] entries@[i]).name@ != (#[trigger] entries@[j]).name@
        &&& exists|k: int| #[trigger]
            parts_at(encode_utf8(entries@[i].name@), encode_utf8(entries@[j].name@), k)
    } by {
        assert(entries@[i].name@ != entries@[j].name@);
        law_listing_is_ordered_by_bytes(entries@, i, j);
    }
}

/// What holds at each step of a request for a file that is no readable one, where nothing fails.
spec fn unreadable_state(
    server: FilesystemServer,
    start: Disk,
    path: Seq<Seq<char>>,
    step: Step,
    disk: Disk,
) -> bool {
    &&& same_items(start, disk)
    &&& match step {
        Step::Wait(Task::Read { path: p, phase, .. }) => {
            &&& p@ == path
            &&& !(phase is Reading)
            &&& read_inv(server.max_file_bytes, path, phase, disk)
        },
        Step::Wait(_) => false,
        Step::Done(_) => step.refuses(
            if start.files.contains_key(path) {
                "file is "@ + decimal(start.files[path].len()) + " bytes; limit is "@ + decimal(
                    server.max_file_bytes as nat,
                ) + " bytes"@
            } else {
                "path is not a regular file"@
            },
        ),
    }
}

proof fn lemma_unreadable_run(run: Run, path: Seq<Seq<char>>, i: int)
    requires
        run.wf(),
        run.smooth(),
        unreadable_state(run.server, run.before(), path, run.steps[0], run.before()),
        free_of_links(run.before(), path),
        run.before().files.contains_key(path) ==> run.before().files[path].len()
            > run.server.max_file_bytes,
        0 <= i < run.steps.len(),
    ensures
        unreadable_state(run.server, run.before(), path, run.steps[i], run.disks[i]),
    decreases i,
{
    if i > 0 {
        let k = i - 1;
        lemma_unreadable_run(run, path, k);
        assert(run.goes(k));
        assert(!(run.events[k] is Failed));
        reveal_strlit("file");
        reveal_strlit(" is ");
        reveal_strlit("file is ");
        assert("file"@ + " is "@ =~= "file is "@);
        let phase = run.steps[k]->Wait_0->Read_phase;
        lemma_read_step(
            run.server.max_file_bytes,
            path,
            phase,
            run.actions[k],
            run.events[k],
            run.disks[k],
            run.disks[i],
        );
        if phase is Walking {
            assert(!run.before().links.contains(path.take(phase->Walking_0 as int)));
        }
    }
}

/// A file beyond the limit is not read, whatever for: the request is refused with both sizes. So is
/// one for something that is no file.
pub proof fn law_unreadable_file_is_refused(
    run: Run,
    raw: Seq<char>,
    purpose: Purpose,
    path: Seq<Seq<char>>,
)
    requires
        run.wf(),
        starts_read(run.steps[0], raw, purpose),
        cleaned(raw, false) == Ok::<_, Seq<char>>(path),
        free_of_links(run.before(), path),
        run.before().files.contains_key(path) ==> run.before().files[path].len()
            > run.server.max_file_bytes,
        run.smooth(),
        run.now() is Done,
    ensures
        run.now().refuses(
            if run.before().files.contains_key(path) {
                "file is "@ + decimal(run.before().files[path].len()) + " bytes; limit is "@
                    + decimal(run.server.max_file_bytes as nat) + " bytes"@
            } else {
                "path is not a regular file"@
            },
        ),
{
    law_clean_path_is_confined(raw, false);
    lemma_unreadable_run(run, path, run.steps.len() - 1);
}

/// A file that has grown since its size was looked at is not read: the disk is asked for one byte
/// more than the limit, so that it shows, and whatever has more bytes than the limit is refused.
pub proof fn law_grown_file_is_refused(
    server: FilesystemServer,
    purpose: Purpose,
    path: RelPath,
    action: Action,
    bytes: Vec<u8>,
    step: Step,
)
    requires
        task_action(server, Task::Read { purpose, path, phase: ReadPhase::Reading }, action),
        task_next(
            step,
            server,
            Task::Read { purpose, path, phase: ReadPhase::Reading },
            Event::Bytes { bytes },
        ),
    ensures
        action matches Action::ReadFile { limit } && (limit == server.max_file_bytes + 1
            || server.max_file_bytes == u64::MAX && limit == u64::MAX),
        bytes@.len() > server.max_file_bytes ==> step.refuses(
            "file grew beyond the "@ + decimal(server.max_file_bytes as nat) + "-byte limit"@,
        ),
{
}

/// Whether a text ends in another one.
pub open spec fn ends_in(text: Seq<char>, end: Seq<char>) -> bool {
    end.len() <= text.len() && text.skip(text.len() - end.len()) == end
}

/// A request that fails on the disk says why: the message ends in what the disk said. A replacement
/// first removes its temporary file. (A look at whether a file still has the expected revision tells
/// nothing but that it does not, a lock does not fail, and what follows on the removal of a temporary
/// file was settled before.)
pub proof fn law_refusal_names_the_cause(
    server: FilesystemServer,
    task: Task,
    error: String,
    step: Step,
)
    requires
        task_next(step, server, task, Event::Failed { error }),
        task matches Task::Write { phase, .. } ==> {
            &&& !(phase is Locking)
            &&& !(phase is Checking)
            &&& !(phase is Discarding)
            &&& !(phase matches WritePhase::Replacing(_, TempPhase::Rechecking(_)))
        },
    ensures
        match step {
            Step::Done(Err(message)) => ends_in(message@, error@),
            Step::Wait(
                Task::Write { phase: WritePhase::Discarding(_, message), .. },
            ) => ends_in(message@, error@),
            _ => false,
        },
{
    let message = match step {
        Step::Done(Err(message)) => message@,
        _ => step->Wait_0->Write_phase->Discarding_1@,
    };
    assert(message.len() >= error@.len());
    assert(message.skip(message.len() - error@.len()) =~= error@);
}

} // verus!
