//! What holds of every request about a directory.

use vstd::prelude::*;
use crate::disk::{same_items, with_dirs, Disk, Run};
use crate::laws::reads::free_of_links;
use crate::laws::requests::{law_success_is_free_of_links, Request};
use crate::listing::{
    distinct, in_order, kind_of, lemma_same_entries, same_entries, DirectoryEntry,
};
use crate::messages::number_message;
use crate::paths::{cleaned, displayed};
use crate::server::{starts_create, starts_list, FilesystemServer};
use crate::tasks::{CreatePhase, ListPhase, Output, Step, Task};
use crate::text::decimal;

verus! {

/// What a listing calls an item of a disk.
pub open spec fn kind_on(disk: Disk, path: Seq<Seq<char>>) -> Seq<char> {
    kind_of(disk.dirs.contains(path), disk.files.contains_key(path), disk.links.contains(path))
}

/// Whether `entry` is an item of the directory `dir`, with its kind.
pub open spec fn is_entry(entry: DirectoryEntry, disk: Disk, dir: Seq<Seq<char>>) -> bool {
    &&& disk.has(dir.push(entry.name@))
    &&& entry.kind@ == kind_on(disk, dir.push(entry.name@))
}

/// Whether `entries` are items of the directory `dir`, each once and with its kind.
pub open spec fn are_entries(
    entries: Seq<DirectoryEntry>,
    disk: Disk,
    dir: Seq<Seq<char>>,
) -> bool {
    &&& forall|i: int| 0 <= i < entries.len() ==> is_entry(#[trigger] entries[i], disk, dir)
    &&& distinct(entries)
}

/// The names of some entries.
pub open spec fn names(entries: Seq<DirectoryEntry>) -> Seq<Seq<char>> {
    entries.map_values(|entry: DirectoryEntry| entry.name@)
}

/// Whether `entries` are the items of the directory `dir`: all of them, each once and with its kind,
/// and nothing else.
pub open spec fn lists(entries: Seq<DirectoryEntry>, disk: Disk, dir: Seq<Seq<char>>) -> bool {
    &&& are_entries(entries, disk, dir)
    &&& forall|name: Seq<char>| #[trigger]
        disk.has(dir.push(name)) ==> names(entries).contains(name)
}

/// What holds at each step of the listing of `path`.
spec fn list_state(
    server: FilesystemServer,
    start: Disk,
    path: Seq<Seq<char>>,
    step: Step,
    disk: Disk,
) -> bool {
    &&& same_items(start, disk)
    &&& match step {
        Step::Wait(Task::List { path: p, phase }) => {
            &&& p@ == path
            &&& match phase {
                ListPhase::Listing => disk.open_dir == Some(path),
                ListPhase::Next(entries) => {
                    &&& disk.open_dir == Some(path)
                    &&& disk.told == names(entries@)
                    &&& are_entries(entries@, start, path)
                },
                ListPhase::Inspecting(entries, name) => {
                    &&& disk.open_dir == Some(path)
                    &&& disk.told == names(entries@).push(name@)
                    &&& are_entries(entries@, start, path)
                    &&& start.has(path.push(name@))
                    &&& !names(entries@).contains(name@)
                },
                _ => true,
            }
        },
        Step::Wait(_) => false,
        Step::Done(Ok(output)) => {
            &&& output matches Output::Entries(sorted)
            &&& sorted@.len() <= server.max_dir_entries
            &&& in_order(sorted@)
            &&& lists(sorted@, start, path)
        },
        Step::Done(Err(_)) => true,
    }
}

/// The entry that a listing goes on with is one more item of the directory.
proof fn lemma_one_more(
    entries: Seq<DirectoryEntry>,
    more: Seq<DirectoryEntry>,
    disk: Disk,
    dir: Seq<Seq<char>>,
)
    requires
        are_entries(entries, disk, dir),
        more.len() == entries.len() + 1,
        more.drop_last() == entries,
        is_entry(more.last(), disk, dir),
        !names(entries).contains(more.last().name@),
    ensures
        are_entries(more, disk, dir),
        names(more) == names(entries).push(more.last().name@),
{
    assert(names(more) =~= names(entries).push(more.last().name@));
    assert forall|i: int| 0 <= i < more.len() implies is_entry(#[trigger] more[i], disk, dir) by {
        if i < entries.len() {
            assert(more[i] == entries[i]);
        }
    }
    assert forall|i: int, j: int| 0 <= i < j < more.len() implies #[trigger] more[i].name@
        != #[trigger] more[j].name@ by {
        assert(more[i] == entries[i]);
        if j < entries.len() {
            assert(more[j] == entries[j]);
        } else {
            assert(names(entries)[i] == more[i].name@);
        }
    }
}

/// To put a listing in order keeps what it lists.
proof fn lemma_sorted_lists(
    sorted: Seq<DirectoryEntry>,
    entries: Seq<DirectoryEntry>,
    disk: Disk,
    dir: Seq<Seq<char>>,
)
    requires
        same_entries(sorted, entries),
        lists(entries, disk, dir),
    ensures
        lists(sorted, disk, dir),
{
    lemma_same_entries(sorted, entries);
    assert forall|i: int| 0 <= i < sorted.len() implies is_entry(
        #[trigger] sorted[i],
        disk,
        dir,
    ) by {
        assert(sorted.contains(sorted[i]));
        let j = choose|j: int| 0 <= j < entries.len() && entries[j] == sorted[i];
        assert(is_entry(entries[j], disk, dir));
    }
    assert forall|name: Seq<char>| #[trigger] disk.has(dir.push(name)) implies names(
        sorted,
    ).contains(name) by {
        assert(names(entries).contains(name));
        let j = choose|j: int| 0 <= j < entries.len() && names(entries)[j] == name;
        assert(entries.contains(entries[j]));
        assert(sorted.contains(entries[j]));
        let i = choose|i: int| 0 <= i < sorted.len() && sorted[i] == entries[j];
        assert(names(sorted)[i] == name);
    }
}

proof fn lemma_list_run(run: Run, path: Seq<Seq<char>>, i: int)
    requires
        run.wf(),
        list_state(run.server, run.before(), path, run.steps[0], run.before()),
        0 <= i < run.steps.len(),
    ensures
        list_state(run.server, run.before(), path, run.steps[i], run.disks[i]),
    decreases i,
{
    if i > 0 {
        let k = i - 1;
        let start = run.before();
        lemma_list_run(run, path, k);
        assert(run.goes(k));
        if k > 0 {
            assert(run.goes(k - 1));
        }
        match (run.steps[k]->Wait_0->List_phase, run.steps[i]) {
            (
                ListPhase::Inspecting(entries, name),
                Step::Wait(Task::List { phase: ListPhase::Next(more), .. }),
            ) => {
                assert(run.disks[k].told.last() == name@);
                lemma_one_more(entries@, more@, start, path);
            },
            (ListPhase::Next(entries), Step::Done(Ok(Output::Entries(sorted)))) => {
                assert forall|name: Seq<char>| #[trigger] start.has(path.push(name)) implies names(
                    entries@,
                ).contains(name) by {
                    assert(run.disks[k].has(path.push(name)));
                }
                lemma_sorted_lists(sorted@, entries@, start, path);
            },
            (ListPhase::Next(entries), _) => {
                if run.events[k] is Entry {
                    assert(run.disks[k].has(path.push(run.events[k]->Entry_name@)));
                }
            },
            (
                ListPhase::Listing,
                Step::Wait(Task::List { phase: ListPhase::Next(entries), .. }),
            ) => {
                assert(names(entries@) =~= seq![]);
            },
            _ => {},
        }
    }
}

/// A listing that succeeds is true: it has the items of the directory, all of them, each once and
/// with its kind, and nothing else. They stand in the order of their names, and are no more than the
/// limit allows. Nothing is changed by it.
pub proof fn law_listing_is_true(run: Run, raw: Seq<char>)
    requires
        run.wf(),
        starts_list(run.steps[0], raw),
    ensures
        same_items(run.before(), run.after()),
        run.now() matches Step::Done(Ok(output)) ==> {
            &&& cleaned(raw, true) matches Ok(path)
            &&& output matches Output::Entries(sorted)
            &&& lists(sorted@, run.before(), path)
            &&& in_order(sorted@)
            &&& sorted@.len() <= run.server.max_dir_entries
        },
{
    if cleaned(raw, true) is Ok {
        lemma_list_run(run, cleaned(raw, true)->Ok_0, run.steps.len() - 1);
    } else if run.events.len() > 0 {
        assert(run.goes(0));
    }
}

/// Whether `items` are names of items of the directory `dir`.
pub open spec fn are_items(items: Seq<Seq<char>>, disk: Disk, dir: Seq<Seq<char>>) -> bool {
    forall|i: int| 0 <= i < items.len() ==> disk.has(dir.push(#[trigger] items[i]))
}

/// Whether the directory `dir` has more than `n` items.
pub open spec fn more_than(disk: Disk, dir: Seq<Seq<char>>, n: int) -> bool {
    exists|items: Seq<Seq<char>>|
        items.no_duplicates() && items.len() == n + 1 && #[trigger] are_items(items, disk, dir)
}

/// A directory that is listed has no more items than are listed.
proof fn lemma_listed_all(
    entries: Seq<DirectoryEntry>,
    disk: Disk,
    dir: Seq<Seq<char>>,
    n: int,
)
    requires
        lists(entries, disk, dir),
        entries.len() <= n,
    ensures
        !more_than(disk, dir, n),
{
    if more_than(disk, dir, n) {
        let items = choose|items: Seq<Seq<char>>|
            items.no_duplicates() && items.len() == n + 1 && #[trigger] are_items(
                items,
                disk,
                dir,
            );
        let listed = names(entries);
        assert forall|name: Seq<char>| items.to_set().contains(name) implies #[trigger]
            listed.to_set().contains(name) by {
            let i = choose|i: int| 0 <= i < items.len() && items[i] == name;
            assert(disk.has(dir.push(items[i])));
            assert(listed.contains(name));
        }
        assert(items.to_set().subset_of(listed.to_set()));
        items.unique_seq_to_set();
        listed.lemma_cardinality_of_set();
        vstd::set_lib::lemma_len_subset(items.to_set(), listed.to_set());
    }
}

/// What holds at each step of a listing in which nothing fails.
spec fn smooth_list_state(run: Run, path: Seq<Seq<char>>, i: int) -> bool {
    let max = run.server.max_dir_entries;
    run.steps[i] matches Step::Done(Err(_)) ==> {
        &&& more_than(run.before(), path, max as int)
        &&& run.steps[i].refuses(
            number_message("directory contains more than "@, max as nat, " entries"@),
        )
    }
}

proof fn lemma_smooth_list_run(run: Run, path: Seq<Seq<char>>, i: int)
    requires
        run.wf(),
        run.smooth(),
        list_state(run.server, run.before(), path, run.steps[0], run.before()),
        run.steps[0] is Wait,
        free_of_links(run.before(), path),
        0 <= i < run.steps.len(),
    ensures
        smooth_list_state(run, path, i),
{
    if i > 0 {
        let k = i - 1;
        let start = run.before();
        lemma_list_run(run, path, k);
        assert(run.goes(k));
        if k > 0 {
            assert(run.goes(k - 1));
        }
        assert(!(run.events[k] is Failed));
        match run.steps[k]->Wait_0->List_phase {
            ListPhase::Walking(n) => {
                assert(!start.links.contains(path.take(n as int)));
            },
            ListPhase::Next(entries) => {
                if run.events[k] is Entry {
                    let name = run.events[k]->Entry_name@;
                    let items = names(entries@).push(name);
                    assert(run.disks[k].has(path.push(name)));
                    assert forall|j: int| 0 <= j < items.len() implies start.has(
                        path.push(#[trigger] items[j]),
                    ) by {
                        if j < entries@.len() {
                            assert(is_entry(entries@[j], start, path));
                        }
                    }
                    assert(items.no_duplicates()) by {
                        assert forall|a: int, b: int|
                            0 <= a < items.len() && 0 <= b < items.len() && a
                                != b implies items[a] != items[b] by {
                            if a < entries@.len() {
                                assert(names(entries@)[a] == entries@[a].name@);
                                assert(names(entries@).contains(names(entries@)[a]));
                            }
                            if b < entries@.len() {
                                assert(names(entries@)[b] == entries@[b].name@);
                                assert(names(entries@).contains(names(entries@)[b]));
                            }
                        }
                    }
                    assert(are_items(items, start, path));
                    if entries@.len() == run.server.max_dir_entries {
                        assert(more_than(start, path, entries@.len() as int));
                    }
                }
            },
            _ => {},
        }
    }
}

/// A listing that nothing speaks against succeeds: with no symlink on the way and nothing failing,
/// it ends with the items of the directory where they are within the limit. A directory with more of
/// them is not listed in part: the request is refused with a message that says so.
pub proof fn law_listings_succeed(run: Run, raw: Seq<char>)
    requires
        run.wf(),
        starts_list(run.steps[0], raw),
        cleaned(raw, true) is Ok,
        free_of_links(run.before(), cleaned(raw, true)->Ok_0),
        run.smooth(),
        run.now() is Done,
    ensures
        ({
            let path = cleaned(raw, true)->Ok_0;
            let max = run.server.max_dir_entries;
            if more_than(run.before(), path, max as int) {
                run.now().refuses(
                    "directory contains more than "@ + decimal(max as nat) + " entries"@,
                )
            } else {
                &&& run.now() matches Step::Done(Ok(Output::Entries(sorted)))
                &&& lists(sorted@, run.before(), path)
                &&& in_order(sorted@)
            }
        }),
{
    let path = cleaned(raw, true)->Ok_0;
    lemma_smooth_list_run(run, path, run.steps.len() - 1);
    law_listing_is_true(run, raw);
    match run.now() {
        Step::Done(Ok(Output::Entries(sorted))) => {
            lemma_listed_all(
                sorted@,
                run.before(),
                path,
                run.server.max_dir_entries as int,
            );
        },
        _ => {},
    }
}

/// What holds at each step of the creation of the directory `path`.
spec fn create_state(start: Disk, path: Seq<Seq<char>>, step: Step, disk: Disk) -> bool {
    match step {
        Step::Wait(task) => {
            &&& task matches Task::CreateDir { path: p, .. }
            &&& p@ == path
            &&& disk == start
        },
        Step::Done(Ok(output)) => {
            &&& disk == (Disk { dirs: with_dirs(start.dirs, path), ..start })
            &&& forall|n: int|
                0 < n <= path.len() ==> !start.files.contains_key(#[trigger] path.take(n))
            &&& output matches Output::Text(text)
            &&& text@ == "created directory "@ + displayed(path)
        },
        Step::Done(Err(_)) => exists|n: int|
            0 <= n <= path.len() && disk == (Disk {
                dirs: with_dirs(start.dirs, #[trigger] path.take(n)),
                ..start
            }),
    }
}

/// No directory comes with the path that has no parts.
proof fn lemma_no_dirs(dirs: Set<Seq<Seq<char>>>, path: Seq<Seq<char>>)
    ensures
        with_dirs(dirs, path.take(0)) == dirs,
{
    assert(with_dirs(dirs, path.take(0)) =~= dirs);
}

/// Whoever has the directories that `path` is in, and `path`, gets no more of them by it.
proof fn lemma_same_dirs(dirs: Set<Seq<Seq<char>>>, path: Seq<Seq<char>>, n: int)
    requires
        0 <= n <= path.len(),
        forall|m: int| 0 < m <= path.len() ==> dirs.contains(#[trigger] path.take(m)),
    ensures
        with_dirs(dirs, path.take(n)) == dirs,
{
    assert forall|p: Seq<Seq<char>>|
        #![trigger dirs.contains(p)]
        0 < p.len() && p.is_prefix_of(path.take(n)) implies dirs.contains(p) by {
        assert(p =~= path.take(p.len() as int));
    }
    assert(with_dirs(dirs, path.take(n)) =~= dirs);
}

proof fn lemma_create_run(run: Run, path: Seq<Seq<char>>, i: int)
    requires
        run.wf(),
        create_state(run.before(), path, run.steps[0], run.before()),
        0 <= i < run.steps.len(),
    ensures
        create_state(run.before(), path, run.steps[i], run.disks[i]),
    decreases i,
{
    if i > 0 {
        let k = i - 1;
        lemma_create_run(run, path, k);
        assert(run.goes(k));
        lemma_no_dirs(run.before().dirs, path);
        if run.steps[i] matches Step::Done(Err(_)) && run.disks[i] == run.before() {
            assert(run.disks[i] == (Disk {
                dirs: with_dirs(run.before().dirs, path.take(0)),
                ..run.before()
            }));
        }
    }
}

proof fn lemma_create_request(run: Run, raw: Seq<char>)
    requires
        run.wf(),
        starts_create(run.steps[0], run.server, raw),
    ensures
        run.server.read_only || cleaned(raw, false) is Err ==> {
            &&& run.now() == run.steps[0]
            &&& run.after() == run.before()
        },
        !run.server.read_only && cleaned(raw, false) is Ok ==> create_state(
            run.before(),
            cleaned(raw, false)->Ok_0,
            run.now(),
            run.after(),
        ),
{
    if run.server.read_only || cleaned(raw, false) is Err {
        if run.events.len() > 0 {
            assert(run.goes(0));
        }
    } else {
        lemma_create_run(run, cleaned(raw, false)->Ok_0, run.steps.len() - 1);
    }
}

/// A directory that is reported as created is there: it is a directory, and so is everything that it
/// is in. Nothing else has changed: there are no other new directories, and every file and symlink is
/// as it was. A read-only server reports none, nor does one that refuses the path.
pub proof fn law_reported_directory_is_there(run: Run, raw: Seq<char>)
    requires
        run.wf(),
        starts_create(run.steps[0], run.server, raw),
        run.now() matches Step::Done(Ok(_)),
    ensures
        !run.server.read_only,
        ({
            &&& cleaned(raw, false) matches Ok(path)
            &&& forall|n: int|
                0 < n <= path.len() ==> run.after().dirs.contains(#[trigger] path.take(n))
            &&& run.after().dirs == with_dirs(run.before().dirs, path)
            &&& run.after().files == run.before().files
            &&& run.after().links == run.before().links
            &&& run.after().others == run.before().others
            &&& run.now() matches Step::Done(Ok(Output::Text(text)))
            &&& text@ == "created directory "@ + displayed(path)
        }),
{
    lemma_create_request(run, raw);
    let path = cleaned(raw, false)->Ok_0;
    assert forall|n: int| 0 < n <= path.len() implies run.after().dirs.contains(
        #[trigger] path.take(n),
    ) by {
        assert(path.take(n).is_prefix_of(path)) by {
            assert(path.subrange(0, n) =~= path.take(n));
        }
    }
}

/// The creation of a directory never changes a file or a symlink, and where it is refused, at most
/// some of the directories have come into being that the directory would be in. Where the server is
/// read-only or refuses the path, nothing has.
pub proof fn law_refused_directory_changes_little(run: Run, raw: Seq<char>)
    requires
        run.wf(),
        starts_create(run.steps[0], run.server, raw),
        run.now() matches Step::Done(Err(_)),
    ensures
        run.after().files == run.before().files,
        run.after().links == run.before().links,
        run.after().others == run.before().others,
        if run.server.read_only {
            &&& run.now().refuses("server is running in read-only mode"@)
            &&& run.after() == run.before()
        } else {
            match cleaned(raw, false) {
                Err(message) => run.now().refuses(message) && run.after() == run.before(),
                Ok(path) => exists|n: int|
                    0 <= n <= path.len() && run.after().dirs == with_dirs(
                        run.before().dirs,
                        #[trigger] path.take(n),
                    ),
            }
        },
{
    lemma_create_request(run, raw);
}

proof fn lemma_smooth_create_run(run: Run, path: Seq<Seq<char>>, i: int)
    requires
        run.wf(),
        run.smooth(),
        create_state(run.before(), path, run.steps[0], run.before()),
        run.steps[0] is Wait,
        free_of_links(run.before(), path),
        0 <= i < run.steps.len(),
    ensures
        !(run.steps[i] matches Step::Done(Err(_))),
{
    if i > 0 {
        let k = i - 1;
        lemma_create_run(run, path, k);
        assert(run.goes(k));
        assert(!(run.events[k] is Failed));
        match run.steps[k] {
            Step::Wait(Task::CreateDir { phase: CreatePhase::Walking(n), .. }) => {
                if k > 0 {
                    assert(run.goes(k - 1));
                }
                assert(!run.before().links.contains(path.take(n as int)));
            },
            _ => {},
        }
    }
}

/// A directory that nothing speaks against is created: on a server that may write, with no symlink
/// on the way and nothing failing, the request ends with success.
pub proof fn law_directories_are_created(run: Run, raw: Seq<char>)
    requires
        run.wf(),
        starts_create(run.steps[0], run.server, raw),
        !run.server.read_only,
        cleaned(raw, false) is Ok,
        free_of_links(run.before(), cleaned(raw, false)->Ok_0),
        run.smooth(),
        run.now() is Done,
    ensures
        run.now() matches Step::Done(Ok(Output::Text(_))),
{
    lemma_smooth_create_run(run, cleaned(raw, false)->Ok_0, run.steps.len() - 1);
    law_reported_directory_is_there(run, raw);
}

/// To create a directory again changes nothing, whatever comes of it, and unless something fails, it
/// succeeds with the same message.
pub proof fn law_directory_can_be_created_again(first: Run, second: Run, raw: Seq<char>)
    requires
        first.wf(),
        second.wf(),
        first.server == second.server,
        starts_create(first.steps[0], first.server, raw),
        starts_create(second.steps[0], second.server, raw),
        first.now() matches Step::Done(Ok(_)),
        second.before() == first.after(),
        second.now() is Done,
    ensures
        second.after() == second.before(),
        second.smooth() ==> {
            &&& first.now() matches Step::Done(Ok(Output::Text(text)))
            &&& second.now() matches Step::Done(Ok(Output::Text(again)))
            &&& again@ == text@
        },
{
    let path = cleaned(raw, false)->Ok_0;
    law_reported_directory_is_there(first, raw);
    lemma_create_request(second, raw);
    match second.now() {
        Step::Done(Err(_)) => {
            let n = choose|n: int|
                0 <= n <= path.len() && second.after() == (Disk {
                    dirs: with_dirs(second.before().dirs, #[trigger] path.take(n)),
                    ..second.before()
                });
            lemma_same_dirs(second.before().dirs, path, n);
        },
        _ => {
            assert(path.take(path.len() as int) =~= path);
            lemma_same_dirs(second.before().dirs, path, path.len() as int);
        },
    }
    if second.smooth() {
        law_success_is_free_of_links(first, Request::CreateDir { raw });
        law_directories_are_created(second, raw);
        law_reported_directory_is_there(second, raw);
    }
}

} // verus!
