//! What is assumed of a disk, and how a request and a disk go on together.

use vstd::prelude::*;
use vstd::utf8::encode_utf8;
use crate::protocol::{Action, Event};
use crate::server::{goes_on, FilesystemServer};
use crate::tasks::{task_action, task_next, Step};

verus! {

/// The state of a disk, as far as a request can see it. All names are text.
pub ghost struct Disk {
    /// The regular files below the exposed directory, and what they hold.
    pub files: Map<Seq<Seq<char>>, Seq<u8>>,
    /// The symlinks below the exposed directory.
    pub links: Set<Seq<Seq<char>>>,
    /// The directories below the exposed directory.
    pub dirs: Set<Seq<Seq<char>>>,
    /// What else there is below the exposed directory.
    pub others: Set<Seq<Seq<char>>>,
    /// The file that was opened last.
    pub open: Option<Seq<Seq<char>>>,
    /// The directory that was opened last.
    pub open_dir: Option<Seq<Seq<char>>>,
    /// The entries of that directory that its listing has told of.
    pub told: Seq<Seq<char>>,
}

/// Whether two disks have the same files, with the same content, and the same other items.
pub open spec fn same_items(a: Disk, b: Disk) -> bool {
    &&& a.files == b.files
    &&& a.links == b.links
    &&& a.dirs == b.dirs
    &&& a.others == b.others
}

/// The first `n` of some bytes, or all of them where there are fewer.
pub open spec fn at_most(bytes: Seq<u8>, n: nat) -> Seq<u8> {
    if bytes.len() <= n {
        bytes
    } else {
        bytes.take(n as int)
    }
}

/// The directories that there are once `path` is one, and with it all that it is in.
pub open spec fn with_dirs(dirs: Set<Seq<Seq<char>>>, path: Seq<Seq<char>>) -> Set<Seq<Seq<char>>> {
    dirs.union(Set::new(|p: Seq<Seq<char>>| 0 < p.len() && p.is_prefix_of(path)))
}

impl Disk {
    /// Whether there is an item of that name.
    pub open spec fn has(self, path: Seq<Seq<char>>) -> bool {
        ||| self.files.contains_key(path)
        ||| self.links.contains(path)
        ||| self.dirs.contains(path)
        ||| self.others.contains(path)
    }

    /// Whether the disk may answer `action` with `event` and be in the state `after` then. Anything
    /// may fail, but for a lock, which is had in the end. A write that fails may have written
    /// anything to the file that it was for, and where a directory cannot be created, some of those
    /// that it would be in may have been. A listing tells of each item of its directory once.
    pub open spec fn may_answer(self, action: Action, event: Event, after: Disk) -> bool {
        match action {
            Action::Inspect { path } => after == self && match event {
                Event::Inspected { symlink } => symlink == self.links.contains(path@),
                Event::NotFound => forall|p: Seq<Seq<char>>| #[trigger]
                    self.has(p) ==> !path@.is_prefix_of(p),
                _ => event is Failed,
            },
            Action::OpenFile { path } => match event {
                Event::Done => after == (Disk { open: Some(path@), ..self }),
                _ => event is Failed && after == self,
            },
            Action::StatFile => after == self && match event {
                Event::Stat { is_file, len } => {
                    &&& self.open matches Some(path)
                    &&& is_file == self.files.contains_key(path)
                    &&& is_file ==> len == self.files[path].len()
                },
                _ => event is Failed,
            },
            Action::ReadFile { limit } => after == self && match event {
                Event::Bytes { bytes } => {
                    &&& self.open matches Some(path)
                    &&& self.files.contains_key(path)
                    &&& bytes@ == at_most(self.files[path], limit as nat)
                },
                _ => event is Failed,
            },
            Action::CreateFile { path } => match event {
                Event::Done => {
                    &&& !self.has(path@)
                    &&& after == (Disk {
                        files: self.files.insert(path@, seq![]),
                        open: Some(path@),
                        ..self
                    })
                },
                _ => event is Failed && after == self,
            },
            Action::WriteFile { content } => {
                &&& self.open matches Some(path)
                &&& match event {
                    Event::Done => after == (Disk {
                        files: self.files.insert(path, self.files[path] + encode_utf8(content@)),
                        ..self
                    }),
                    _ => event is Failed && exists|part: Seq<u8>|
                        after == (Disk { files: #[trigger] self.files.insert(path, part), ..self }),
                }
            },
            Action::RemoveFile { path } => match event {
                Event::Done => after == (Disk {
                    files: self.files.remove(path@),
                    links: self.links.remove(path@),
                    others: self.others.remove(path@),
                    ..self
                }),
                _ => event is Failed && after == self,
            },
            Action::Rename { from, to } => match event {
                Event::Done => {
                    &&& self.files.contains_key(from@)
                    &&& after == (Disk {
                        files: self.files.remove(from@).insert(to@, self.files[from@]),
                        links: self.links.remove(to@),
                        others: self.others.remove(to@),
                        ..self
                    })
                },
                _ => event is Failed && after == self,
            },
            Action::CreateDirs { path } => match event {
                Event::Done => {
                    &&& forall|n: int|
                        0 < n <= path@.len() ==> !self.files.contains_key(#[trigger] path@.take(n))
                    &&& after == (Disk { dirs: with_dirs(self.dirs, path@), ..self })
                },
                _ => event is Failed && exists|n: int|
                    0 <= n <= path@.len() && after == (Disk {
                        dirs: with_dirs(self.dirs, #[trigger] path@.take(n)),
                        ..self
                    }),
            },
            Action::Lock { .. } => after == self && event is Done,
            Action::OpenDir { path } => match event {
                Event::Done => {
                    &&& path@.len() == 0 || self.dirs.contains(path@)
                    &&& after == (Disk { open_dir: Some(path@), ..self })
                },
                _ => event is Failed && after == self,
            },
            Action::ListDir => match event {
                Event::Done => self.open_dir is Some && after == (Disk { told: seq![], ..self }),
                _ => event is Failed && after == self,
            },
            Action::NextEntry => match event {
                Event::Entry { name } => {
                    &&& self.open_dir matches Some(dir)
                    &&& self.has(dir.push(name@))
                    &&& !self.told.contains(name@)
                    &&& after == (Disk { told: self.told.push(name@), ..self })
                },
                Event::NoEntry => {
                    &&& self.open_dir matches Some(dir)
                    &&& forall|name: Seq<char>| #[trigger]
                        self.has(dir.push(name)) ==> self.told.contains(name)
                    &&& after == self
                },
                _ => event is Failed && after == self,
            },
            Action::InspectEntry => after == self && match event {
                Event::EntryType { is_dir, is_file, is_symlink } => {
                    &&& self.open_dir matches Some(dir)
                    &&& self.told.len() > 0
                    &&& is_dir == self.dirs.contains(dir.push(self.told.last()))
                    &&& is_file == self.files.contains_key(dir.push(self.told.last()))
                    &&& is_symlink == self.links.contains(dir.push(self.told.last()))
                },
                _ => event is Failed,
            },
            Action::SyncFile => after == self && (event is Done || event is Failed),
        }
    }
}

/// A request from its start on: what followed each time, what was asked of the disk, what the disk
/// answered, and the state that it was in then. Nothing but the request changes the disk.
pub ghost struct Run {
    pub server: FilesystemServer,
    pub steps: Seq<Step>,
    pub actions: Seq<Action>,
    pub events: Seq<Event>,
    pub disks: Seq<Disk>,
}

impl Run {
    /// Whether the disk answers the `i`th action as it may, and the server goes on from there.
    pub open spec fn goes(self, i: int) -> bool {
        &&& self.steps[i] matches Step::Wait(task)
        &&& task_action(self.server, task, self.actions[i])
        &&& self.disks[i].may_answer(self.actions[i], self.events[i], self.disks[i + 1])
        &&& task_next(self.steps[i + 1], self.server, task, self.events[i])
        &&& goes_on(self.steps[i + 1], self.server)
    }

    /// Whether each step follows from the one before.
    pub open spec fn wf(self) -> bool {
        &&& self.steps.len() == self.events.len() + 1
        &&& self.disks.len() == self.events.len() + 1
        &&& self.actions.len() == self.events.len()
        &&& goes_on(self.steps[0], self.server)
        &&& forall|i: int| 0 <= i < self.events.len() ==> #[trigger] self.goes(i)
    }

    /// The disk before the request.
    pub open spec fn before(self) -> Disk {
        self.disks[0]
    }

    /// The disk as it is now.
    pub open spec fn after(self) -> Disk {
        self.disks.last()
    }

    /// What followed last.
    pub open spec fn now(self) -> Step {
        self.steps.last()
    }

    /// Whether nothing that was asked of the disk failed.
    pub open spec fn smooth(self) -> bool {
        forall|i: int| 0 <= i < self.events.len() ==> !(#[trigger] self.events[i] is Failed)
    }
}

} // verus!
