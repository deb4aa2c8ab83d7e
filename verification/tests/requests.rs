use std::collections::{BTreeMap, BTreeSet, VecDeque};

use rust_mcp_filesystem::content::{
    FileMetadata, FileMetadataText, PatchTextFileArgs, ReadRangeArgs, SearchResult, SearchTextArgs,
    WriteResult,
};
use rust_mcp_filesystem::locks::WriteLocks;
use rust_mcp_filesystem::protocol::{Action, Event};
use rust_mcp_filesystem::search::{MAX_SEARCH_LINE_BYTES, MAX_SEARCH_MATCHES};
use rust_mcp_filesystem::tasks::{Output, Step, Task};
use rust_mcp_filesystem::{revision, FilesystemServer};

/// A disk in memory. What is below a symlink is another disk, and what was asked for is noted down.
#[derive(Default)]
struct Disk {
    files: BTreeMap<String, Vec<u8>>,
    dirs: BTreeSet<String>,
    links: BTreeSet<String>,
    outside: BTreeMap<String, Vec<u8>>,
    open: String,
    listing: VecDeque<(String, (bool, bool, bool))>,
    entry: (bool, bool, bool),
    /// What fails, by the name of the action.
    failures: Vec<&'static str>,
    /// What someone else writes to a file as soon as something was synced.
    interference: Option<(String, Vec<u8>)>,
    log: Vec<String>,
}

fn failed(error: &str) -> Event {
    Event::Failed {
        error: error.to_owned(),
    }
}

impl Disk {
    fn with(files: &[(&str, &str)]) -> Disk {
        let mut disk = Disk::default();
        for (path, text) in files {
            disk.write(path, text);
        }
        disk
    }

    fn write(&mut self, path: &str, text: &str) {
        self.files.insert(path.to_owned(), text.as_bytes().to_vec());
        let mut at = path;
        while let Some(end) = at.rfind('/') {
            at = &at[..end];
            self.dirs.insert(at.to_owned());
        }
    }

    fn text(&self, path: &str) -> &str {
        std::str::from_utf8(&self.files[path]).unwrap()
    }

    fn has_temporary_files(&self) -> bool {
        self.files.keys().any(|path| path.contains(".mcp-"))
    }

    /// The file that a path leads to, where symlinks are followed.
    fn place(&mut self, path: &str) -> (&mut BTreeMap<String, Vec<u8>>, String) {
        for link in &self.links {
            if let Some(rest) = path.strip_prefix(&format!("{link}/")) {
                return (&mut self.outside, rest.to_owned());
            }
        }
        (&mut self.files, path.to_owned())
    }

    fn fails(&self, what: &str) -> bool {
        self.failures.contains(&what)
    }

    fn perform(&mut self, action: &Action) -> Event {
        self.log.push(match action {
            Action::Inspect { path } => format!("inspect {}", path.display()),
            Action::OpenFile { path } => format!("open {}", path.display()),
            Action::StatFile => "stat".to_owned(),
            Action::ReadFile { limit } => format!("read {limit}"),
            Action::OpenDir { path } => format!("open directory {}", path.display()),
            Action::ListDir => "list".to_owned(),
            Action::NextEntry => "next".to_owned(),
            Action::InspectEntry => "inspect entry".to_owned(),
            Action::Lock { path } => format!("lock {}", path.display()),
            Action::CreateFile { path } => format!("create {}", path.display()),
            Action::WriteFile { content } => format!("write {content}"),
            Action::SyncFile => "sync".to_owned(),
            Action::RemoveFile { path } => format!("remove {}", path.display()),
            Action::Rename { from, to } => format!("rename {} {}", from.display(), to.display()),
            Action::CreateDirs { path } => format!("create directory {}", path.display()),
        });
        match action {
            Action::Inspect { path } => {
                let path = path.display();
                if self.fails("inspect") {
                    failed("no permission")
                } else if self.links.contains(&path) {
                    Event::Inspected { symlink: true }
                } else if self.files.contains_key(&path) || self.dirs.contains(&path) {
                    Event::Inspected { symlink: false }
                } else {
                    Event::NotFound
                }
            }
            Action::OpenFile { path } => {
                let path = path.display();
                let is_dir = self.dirs.contains(&path);
                let (files, place) = self.place(&path);
                if !is_dir && !files.contains_key(&place) {
                    failed("no such file")
                } else {
                    self.open = path;
                    Event::Done
                }
            }
            Action::StatFile => {
                if self.fails("stat") {
                    return failed("stat failed");
                }
                let open = self.open.clone();
                let (files, place) = self.place(&open);
                match files.get(&place) {
                    Some(bytes) => Event::Stat {
                        is_file: true,
                        len: bytes.len() as u64,
                    },
                    None => Event::Stat {
                        is_file: false,
                        len: 4096,
                    },
                }
            }
            Action::ReadFile { limit } => {
                if self.fails("read") {
                    return failed("read failed");
                }
                let grown = self.fails("grow");
                let open = self.open.clone();
                let (files, place) = self.place(&open);
                let mut bytes = files[&place].clone();
                if grown {
                    bytes.resize(5000, b'x');
                }
                bytes.truncate(*limit as usize);
                Event::Bytes { bytes }
            }
            Action::OpenDir { path } => {
                let path = path.display();
                if path != "." && !self.dirs.contains(&path) {
                    return failed("no such directory");
                }
                self.open = path;
                Event::Done
            }
            Action::ListDir => {
                if self.fails("list") {
                    return failed("list failed");
                }
                let prefix = if self.open == "." {
                    String::new()
                } else {
                    format!("{}/", self.open)
                };
                let below = |path: &String| {
                    path.strip_prefix(&prefix)
                        .filter(|name| !name.contains('/'))
                        .map(str::to_owned)
                };
                let mut listing: Vec<(String, (bool, bool, bool))> = Vec::new();
                for name in self.links.iter().filter_map(below) {
                    listing.push((name, (false, false, true)));
                }
                for name in self.files.keys().filter_map(below) {
                    listing.push((name, (false, true, false)));
                }
                for name in self.dirs.iter().filter_map(below) {
                    listing.push((name, (true, false, false)));
                }
                self.listing = listing.into_iter().rev().collect();
                Event::Done
            }
            Action::NextEntry => {
                if self.fails("next") {
                    return failed("next failed");
                }
                match self.listing.pop_front() {
                    Some((name, entry)) => {
                        self.entry = entry;
                        Event::Entry { name }
                    }
                    None => Event::NoEntry,
                }
            }
            Action::InspectEntry => {
                if self.fails("inspect entry") {
                    return failed("inspect entry failed");
                }
                let (is_dir, is_file, is_symlink) = self.entry;
                Event::EntryType {
                    is_dir,
                    is_file,
                    is_symlink,
                }
            }
            Action::Lock { .. } => Event::Done,
            Action::CreateFile { path } => {
                let path = path.display();
                if self.fails("create") {
                    return failed("disk full");
                }
                let (files, place) = self.place(&path);
                if files.contains_key(&place) {
                    return failed("file exists");
                }
                files.insert(place, Vec::new());
                self.open = path;
                Event::Done
            }
            Action::WriteFile { content } => {
                if self.fails("write") {
                    return failed("disk full");
                }
                let open = self.open.clone();
                let (files, place) = self.place(&open);
                files
                    .get_mut(&place)
                    .unwrap()
                    .extend_from_slice(content.as_bytes());
                Event::Done
            }
            Action::SyncFile => {
                if self.fails("sync") {
                    return failed("injected temporary sync failure");
                }
                if let Some((path, bytes)) = self.interference.take() {
                    self.files.insert(path, bytes);
                }
                Event::Done
            }
            Action::RemoveFile { path } => {
                let path = path.display();
                if self.fails("remove") || self.files.remove(&path).is_none() {
                    return failed("cannot remove");
                }
                Event::Done
            }
            Action::Rename { from, to } => {
                if self.fails("rename") {
                    return failed("injected rename failure");
                }
                match self.files.remove(&from.display()) {
                    Some(bytes) => {
                        self.files.insert(to.display(), bytes);
                        Event::Done
                    }
                    None => failed("no such file"),
                }
            }
            Action::CreateDirs { path } => {
                if self.fails("create directory") {
                    return failed("disk full");
                }
                let mut at = path.display();
                self.dirs.insert(at.clone());
                while let Some(end) = at.rfind('/') {
                    at.truncate(end);
                    self.dirs.insert(at.clone());
                }
                Event::Done
            }
        }
    }

    fn run(&mut self, server: &FilesystemServer, start: Step) -> Result<Output, String> {
        let mut step = start;
        loop {
            match step {
                Step::Done(outcome) => return outcome,
                Step::Wait(task) => {
                    let event = self.perform(&server.action(&task));
                    step = server.resume(task, event);
                }
            }
        }
    }

    fn read_text(&mut self, server: &FilesystemServer, path: &str) -> Result<String, String> {
        self.run(server, server.read_text(path))
            .map(|output| match output {
                Output::Text(text) => text,
                _ => unreachable!(),
            })
    }

    fn metadata(&mut self, server: &FilesystemServer, path: &str) -> Result<FileMetadata, String> {
        self.run(server, server.metadata(path))
            .map(|output| match output {
                Output::Metadata(metadata) => metadata,
                _ => unreachable!(),
            })
    }

    fn read_range(
        &mut self,
        server: &FilesystemServer,
        path: &str,
        offset: u64,
        max_bytes: u64,
    ) -> Result<FileMetadataText, String> {
        let args = ReadRangeArgs {
            path: path.into(),
            offset,
            max_bytes,
        };
        self.run(server, server.read_range(args))
            .map(|output| match output {
                Output::Range(range) => range,
                _ => unreachable!(),
            })
    }

    fn search(
        &mut self,
        server: &FilesystemServer,
        path: &str,
        query: &str,
        max_matches: usize,
    ) -> Result<SearchResult, String> {
        let args = SearchTextArgs {
            path: path.into(),
            query: query.into(),
            max_matches,
        };
        self.run(server, server.search_text_impl(args))
            .map(|output| match output {
                Output::Search(result) => result,
                _ => unreachable!(),
            })
    }

    fn write_text(
        &mut self,
        server: &FilesystemServer,
        path: &str,
        content: &str,
        overwrite: bool,
        expected: Option<&str>,
    ) -> Result<WriteResult, String> {
        let start = server.write_text(
            path,
            content.to_owned(),
            overwrite,
            expected.map(str::to_owned),
        );
        self.run(server, start).map(|output| match output {
            Output::Written(result) => result,
            _ => unreachable!(),
        })
    }

    fn patch_text(
        &mut self,
        server: &FilesystemServer,
        path: &str,
        expected: &str,
        start_byte: u64,
        end_byte: u64,
        replacement: &str,
    ) -> Result<WriteResult, String> {
        let args = PatchTextFileArgs {
            path: path.into(),
            expected_revision: expected.into(),
            start_byte,
            end_byte,
            replacement: replacement.into(),
        };
        self.run(server, server.patch_text(args))
            .map(|output| match output {
                Output::Written(result) => result,
                _ => unreachable!(),
            })
    }

    fn list(
        &mut self,
        server: &FilesystemServer,
        path: Option<&str>,
    ) -> Result<Vec<(String, &'static str)>, String> {
        self.run(server, server.list_directory(path))
            .map(|output| match output {
                Output::Entries(entries) => {
                    entries.into_iter().map(|e| (e.name, e.kind)).collect()
                }
                _ => unreachable!(),
            })
    }

    fn create_dir(&mut self, server: &FilesystemServer, path: &str) -> Result<String, String> {
        self.run(server, server.create_dir(path))
            .map(|output| match output {
                Output::Text(text) => text,
                _ => unreachable!(),
            })
    }
}

fn fixture() -> FilesystemServer {
    FilesystemServer::new(true, false, 1024, 10).unwrap()
}

fn read_only() -> FilesystemServer {
    FilesystemServer::new(true, true, 1024, 10).unwrap()
}

/// A writer that takes its turns beside another one.
struct Writer {
    step: Option<Step>,
    outcome: Option<Result<Output, String>>,
    held: Option<usize>,
}

impl Writer {
    fn new(step: Step) -> Writer {
        Writer {
            step: Some(step),
            outcome: None,
            held: None,
        }
    }

    /// Does one thing, unless the writer has to wait for a lock that is taken.
    fn turn(
        &mut self,
        server: &FilesystemServer,
        disk: &mut Disk,
        locks: &mut WriteLocks,
        taken: &mut BTreeSet<usize>,
    ) {
        let task: Task = match self.step.take() {
            None => return,
            Some(Step::Done(outcome)) => {
                if let Some(number) = self.held.take() {
                    taken.remove(&number);
                }
                self.outcome = Some(outcome);
                return;
            }
            Some(Step::Wait(task)) => task,
        };
        let action = server.action(&task);
        if let Action::Lock { path } = &action {
            let number = locks.write_lock(path);
            if !taken.insert(number) {
                self.step = Some(Step::Wait(task));
                return;
            }
            self.held = Some(number);
        }
        let event = disk.perform(&action);
        self.step = Some(server.resume(task, event));
    }
}

#[test]
fn rejects_symlink_components_for_reads_and_writes() {
    let server = fixture();
    let mut disk = Disk::default();
    disk.outside
        .insert("secret.txt".to_owned(), b"secret\n".to_vec());
    disk.links.insert("escape".to_owned());

    assert!(disk.read_text(&server, "escape/secret.txt").is_err());
    assert!(disk
        .write_text(&server, "escape/new.txt", "blocked\n", true, None)
        .is_err());
    assert!(!disk.outside.contains_key("new.txt"));
}

#[test]
fn metadata_range_and_revision_cas_detect_external_change() {
    let server = fixture();
    let mut disk = Disk::with(&[("note.txt", "alpha\nbeta\n")]);

    let metadata = disk.metadata(&server, "note.txt").unwrap();
    assert_eq!(metadata.size_bytes, 11);
    assert!(metadata.revision.starts_with("sha256:"));

    let range = disk.read_range(&server, "note.txt", 6, 4).unwrap();
    assert_eq!(range.text, "beta");
    assert!(range.truncated);

    disk.write("note.txt", "external\n");
    let conflict = disk
        .write_text(
            &server,
            "note.txt",
            "lost\n",
            true,
            Some(&metadata.revision),
        )
        .unwrap_err();
    assert!(conflict.starts_with("stale_revision:"));
    assert_eq!(disk.read_text(&server, "note.txt").unwrap(), "external\n");

    let external_revision = disk.metadata(&server, "note.txt").unwrap().revision;
    let written = disk
        .write_text(
            &server,
            "note.txt",
            "next\n",
            true,
            Some(&external_revision),
        )
        .unwrap();
    assert_eq!(disk.read_text(&server, "note.txt").unwrap(), "next\n");
    assert_eq!(
        written.revision,
        disk.metadata(&server, "note.txt").unwrap().revision
    );
}

#[test]
fn range_and_search_enforce_byte_line_and_match_bounds() {
    let mut server = fixture();
    server.max_file_bytes = 8192;
    let line = format!("needle{}", "x".repeat(5000));
    let mut disk = Disk::with(&[("note.txt", &format!("{line}\nneedle\n"))]);

    assert!(disk.read_range(&server, "note.txt", 0, 0).is_err());
    assert!(disk.read_range(&server, "note.txt", 9_000, 1).is_err());
    assert!(disk
        .search(&server, "note.txt", "needle", MAX_SEARCH_MATCHES + 1)
        .is_err());

    let search = disk.search(&server, "note.txt", "needle", 1).unwrap();
    assert!(search.truncated);
    assert_eq!(search.matches.len(), 1);
    assert!(search.matches[0].preview_truncated);
    assert!(search.matches[0].preview.len() <= MAX_SEARCH_LINE_BYTES);
}

#[test]
fn search_and_patch_are_bounded_and_revision_checked() {
    let server = fixture();
    let mut disk = Disk::with(&[("note.txt", "αbeta\nbeta\n")]);
    let metadata = disk.metadata(&server, "note.txt").unwrap();

    let search = disk.search(&server, "note.txt", "beta", 1).unwrap();
    assert_eq!(search.matches.len(), 1);
    assert_eq!(search.matches[0].line, 1);
    assert_eq!(search.matches[0].start_byte, 2);
    assert!(search.truncated);

    let patched = disk
        .patch_text(&server, "note.txt", &metadata.revision, 2, 6, "next")
        .unwrap();
    assert_eq!(
        disk.read_text(&server, "note.txt").unwrap(),
        "αnext\nbeta\n"
    );
    assert_eq!(
        patched.revision,
        disk.metadata(&server, "note.txt").unwrap().revision
    );

    let invalid_boundary = disk.patch_text(&server, "note.txt", &patched.revision, 1, 2, "x");
    assert!(invalid_boundary.is_err());

    let stale = disk.patch_text(&server, "note.txt", &metadata.revision, 2, 6, "lost");
    assert!(stale.unwrap_err().starts_with("stale_revision:"));
}

#[test]
fn cas_rechecks_before_rename_and_serializes_same_revision_writers() {
    let server = fixture();
    let mut disk = Disk::with(&[("note.txt", "initial\n")]);
    let initial = disk.metadata(&server, "note.txt").unwrap().revision;
    disk.interference = Some(("note.txt".to_owned(), b"external\n".to_vec()));
    let stale = disk
        .write_text(&server, "note.txt", "lost\n", true, Some(&initial))
        .unwrap_err();
    assert!(stale.starts_with("stale_revision:"));
    assert_eq!(disk.read_text(&server, "note.txt").unwrap(), "external\n");

    let revision = disk.metadata(&server, "note.txt").unwrap().revision;
    // However the turns of the two writers come, one of them is refused.
    for pattern in 0..64u32 {
        let mut disk = Disk::with(&[("note.txt", "external\n")]);
        let mut locks = WriteLocks::new();
        let mut taken = BTreeSet::new();
        let mut first = Writer::new(server.write_text(
            "note.txt",
            "first\n".to_owned(),
            true,
            Some(revision.clone()),
        ));
        let mut second = Writer::new(server.write_text(
            "note.txt",
            "second\n".to_owned(),
            true,
            Some(revision.clone()),
        ));
        let mut turn: u32 = 0;
        while first.outcome.is_none() || second.outcome.is_none() {
            let writer = if (pattern >> (turn % 6)) & 1 == 0 || second.outcome.is_some() {
                &mut first
            } else {
                &mut second
            };
            writer.turn(&server, &mut disk, &mut locks, &mut taken);
            turn += 1;
            if turn > 200 {
                // A pattern with one writer only leaves the other one to the end.
                first.turn(&server, &mut disk, &mut locks, &mut taken);
                second.turn(&server, &mut disk, &mut locks, &mut taken);
            }
        }
        let results = [first.outcome.unwrap(), second.outcome.unwrap()];
        assert_eq!(results.iter().filter(|result| result.is_ok()).count(), 1);
        assert_eq!(
            results
                .iter()
                .filter(|result| result
                    .as_ref()
                    .is_err_and(|error| error.starts_with("stale_revision:")))
                .count(),
            1
        );
        assert!(matches!(
            disk.read_text(&server, "note.txt").unwrap().as_str(),
            "first\n" | "second\n"
        ));
        assert!(!disk.has_temporary_files());
    }
}

#[test]
fn injected_replace_failures_keep_old_bytes_and_remove_temporary_file() {
    let server = fixture();
    let mut disk = Disk::with(&[("note.txt", "old\n")]);
    let revision = disk.metadata(&server, "note.txt").unwrap().revision;
    for failure in ["sync", "rename"] {
        disk.failures = vec![failure];
        assert!(disk
            .write_text(&server, "note.txt", "new\n", true, Some(&revision))
            .is_err());
        assert_eq!(disk.read_text(&server, "note.txt").unwrap(), "old\n");
        assert!(disk.files.keys().all(|path| !path.contains(".mcp-")));
    }
}

#[test]
fn a_read_asks_for_one_byte_more_than_the_limit() {
    let server = fixture();
    let mut disk = Disk::with(&[("notes/a.txt", "text")]);
    assert_eq!(disk.read_text(&server, "notes/a.txt").unwrap(), "text");
    assert_eq!(
        disk.log,
        [
            "inspect notes",
            "inspect notes/a.txt",
            "open notes/a.txt",
            "stat",
            "read 1025"
        ]
    );
    let unlimited = FilesystemServer::new(true, false, u64::MAX, 10).unwrap();
    disk.log.clear();
    assert_eq!(disk.read_text(&unlimited, "notes/a.txt").unwrap(), "text");
    assert_eq!(disk.log[4], format!("read {}", u64::MAX));
}

#[test]
fn each_refusal_of_a_read_says_why() {
    let server = fixture();
    let large = "x".repeat(1025);
    let mut disk = Disk::with(&[("dir/a", "text"), ("large", &large)]);
    disk.files.insert("binary".to_owned(), vec![0xff]);
    disk.links.insert("dir/link".to_owned());
    assert_eq!(
        disk.read_text(&server, "../a").unwrap_err(),
        "parent traversal (`..`) is not allowed"
    );
    assert_eq!(
        disk.read_text(&server, "missing").unwrap_err(),
        "cannot open file: no such file"
    );
    assert_eq!(
        disk.read_text(&server, "dir").unwrap_err(),
        "path is not a regular file"
    );
    assert_eq!(
        disk.read_text(&server, "large").unwrap_err(),
        "file is 1025 bytes; limit is 1024 bytes"
    );
    assert_eq!(
        disk.read_text(&server, "binary").unwrap_err(),
        "file is not valid UTF-8; this server reads text only"
    );
    assert_eq!(
        disk.read_text(&server, "dir/link/x").unwrap_err(),
        "path contains a symlink component: dir/link"
    );
    for (failure, message) in [
        ("inspect", "cannot inspect path component dir: no permission"),
        ("stat", "cannot inspect file: stat failed"),
        ("read", "cannot read file: read failed"),
        ("grow", "file grew beyond the 1024-byte limit"),
    ] {
        disk.failures = vec![failure];
        assert_eq!(disk.read_text(&server, "dir/a").unwrap_err(), message);
    }
}

#[test]
fn ranges_and_searches_are_bounded_before_anything_is_read() {
    let server = fixture();
    let mut disk = Disk::with(&[("a", "text")]);
    assert_eq!(
        disk.read_range(&server, "a", 0, 1025).unwrap_err(),
        "max_bytes must be between 1 and 1024"
    );
    assert_eq!(
        disk.read_range(&server, "a", 0, 0).unwrap_err(),
        "max_bytes must be between 1 and 1024"
    );
    let query = "query must be between 1 and 4096 bytes";
    assert_eq!(disk.search(&server, "a", "", 1).unwrap_err(), query);
    assert_eq!(
        disk.search(&server, "a", &"x".repeat(4097), 1).unwrap_err(),
        query
    );
    let matches = "max_matches must be between 1 and 100";
    assert_eq!(disk.search(&server, "a", "x", 0).unwrap_err(), matches);
    assert_eq!(disk.search(&server, "a", "x", 101).unwrap_err(), matches);
    assert!(disk.log.is_empty());
    assert!(disk.read_range(&server, "a", 0, 1024).is_ok());
    assert!(disk.search(&server, "a", &"x".repeat(4096), 100).is_ok());
    assert_eq!(
        disk.read_range(&server, "a", 9, 1).unwrap_err(),
        "offset is beyond end of file"
    );
}

#[test]
fn a_new_file_is_written_directly() {
    let server = fixture();
    let mut disk = Disk::default();
    let written = disk
        .write_text(&server, "./a.txt", "näw", false, None)
        .unwrap();
    assert_eq!(written.path, "a.txt");
    assert_eq!(written.size_bytes, 4);
    assert_eq!(written.revision, revision("näw".as_bytes()));
    assert_eq!(disk.text("a.txt"), "näw");
    assert_eq!(
        disk.log,
        [
            "inspect a.txt",
            "lock a.txt",
            "create a.txt",
            "write näw",
            "sync"
        ]
    );
}

#[test]
fn an_existing_file_is_replaced_only_on_request() {
    let server = fixture();
    let mut disk = Disk::with(&[("a", "old")]);
    assert_eq!(
        disk.write_text(&server, "a", "new", false, None)
            .unwrap_err(),
        "cannot create file (already exists?): file exists"
    );
    assert_eq!(disk.text("a"), "old");
    assert!(disk.write_text(&server, "a", "new", true, None).is_ok());
    assert_eq!(disk.text("a"), "new");
    assert!(!disk.has_temporary_files());
}

#[test]
fn a_replacement_goes_by_way_of_a_temporary_file() {
    let server = fixture();
    let mut disk = Disk::with(&[("dir/a", "old")]);
    let old = revision(b"old");
    disk.write_text(&server, "dir/a", "new", true, Some(&old))
        .unwrap();
    let temp = disk.log[8].strip_prefix("create ").unwrap().to_owned();
    assert_eq!(
        disk.log,
        [
            "inspect dir".to_owned(),
            "inspect dir/a".to_owned(),
            "lock dir/a".to_owned(),
            "inspect dir".to_owned(),
            "inspect dir/a".to_owned(),
            "open dir/a".to_owned(),
            "stat".to_owned(),
            "read 1025".to_owned(),
            format!("create {temp}"),
            "write new".to_owned(),
            "sync".to_owned(),
            "inspect dir".to_owned(),
            "inspect dir/a".to_owned(),
            "open dir/a".to_owned(),
            "stat".to_owned(),
            "read 1025".to_owned(),
            format!("rename {temp} dir/a"),
        ]
    );
}

#[test]
fn temporary_files_have_random_names() {
    let server = fixture();
    let mut names = BTreeSet::new();
    for _ in 0..20 {
        let mut disk = Disk::with(&[("a", "old")]);
        disk.write_text(&server, "a", "new", true, None).unwrap();
        let name = disk.log[2].strip_prefix("create .a.mcp-").unwrap();
        let id = name.strip_suffix(".tmp").unwrap();
        assert_eq!(id.len(), 36);
        for (i, c) in id.char_indices() {
            if [8, 13, 18, 23].contains(&i) {
                assert_eq!(c, '-');
            } else {
                assert!(c.is_ascii_digit() || ('a'..='f').contains(&c));
            }
        }
        assert_eq!(&id[14..15], "4");
        assert!("89ab".contains(&id[19..20]));
        names.insert(id.to_owned());
    }
    assert_eq!(names.len(), 20);
}

#[test]
fn a_missing_or_changed_file_is_stale() {
    let server = fixture();
    let mut disk = Disk::with(&[("a", "old")]);
    let old = revision(b"old");
    assert_eq!(
        disk.write_text(&server, "b", "new", true, Some(&old))
            .unwrap_err(),
        "stale_revision: target file does not exist"
    );
    assert_eq!(
        disk.write_text(&server, "a", "new", true, Some("x"))
            .unwrap_err(),
        format!("stale_revision: expected x, current {old}")
    );
    assert_eq!(
        disk.write_text(&server, "a", "new", false, Some("x"))
            .unwrap_err(),
        format!("stale_revision: expected x, current {old}")
    );
    disk.interference = Some(("a".to_owned(), b"other".to_vec()));
    assert_eq!(
        disk.write_text(&server, "a", "new", true, Some(&old))
            .unwrap_err(),
        format!(
            "stale_revision: expected {old}, current {}",
            revision(b"other")
        )
    );
    assert_eq!(disk.text("a"), "other");
    assert!(!disk.has_temporary_files());
    assert!(!disk.files.contains_key("b"));
}

#[test]
fn each_refusal_of_a_write_says_why() {
    let server = fixture();
    let mut disk = Disk::with(&[("a", "old")]);
    disk.links.insert("link".to_owned());
    assert_eq!(
        disk.write_text(&server, "/a", "new", true, None)
            .unwrap_err(),
        "absolute paths are not allowed"
    );
    assert_eq!(
        disk.write_text(&server, "link", "new", true, None)
            .unwrap_err(),
        "path contains a symlink component: link"
    );
    assert_eq!(
        disk.write_text(&server, "a", &"x".repeat(1025), true, None)
            .unwrap_err(),
        "content is 1025 bytes; limit is 1024 bytes"
    );
    assert!(disk
        .write_text(&server, "full", &"x".repeat(1024), true, None)
        .is_ok());
    for (failure, fresh, replaced) in [
        (
            "create",
            "cannot create file (already exists?): disk full",
            "cannot replace file: disk full",
        ),
        (
            "write",
            "cannot write file: disk full",
            "cannot replace file: disk full",
        ),
        (
            "sync",
            "cannot sync file: injected temporary sync failure",
            "cannot replace file: injected temporary sync failure",
        ),
    ] {
        disk.failures = vec![failure];
        assert_eq!(
            disk.write_text(&server, failure, "new", false, None)
                .unwrap_err(),
            fresh
        );
        assert_eq!(
            disk.write_text(&server, "a", "new", true, None)
                .unwrap_err(),
            replaced
        );
        assert_eq!(disk.text("a"), "old");
        assert!(!disk.has_temporary_files());
    }
    disk.failures = vec!["rename", "remove"];
    assert_eq!(
        disk.write_text(&server, "a", "new", true, None)
            .unwrap_err(),
        "cannot replace file: injected rename failure"
    );
    assert_eq!(disk.text("a"), "old");
    assert!(disk.has_temporary_files());
}

#[test]
fn a_read_only_server_changes_nothing() {
    let server = read_only();
    let mut disk = Disk::with(&[("a", "old")]);
    let refusal = "server is running in read-only mode";
    let old = revision(b"old");
    assert_eq!(
        disk.write_text(&server, "a", "new", true, None)
            .unwrap_err(),
        refusal
    );
    assert_eq!(disk.create_dir(&server, "dir").unwrap_err(), refusal);
    assert!(disk.log.is_empty());
    assert_eq!(
        disk.patch_text(&server, "a", &old, 0, 0, "x").unwrap_err(),
        refusal
    );
    assert!(disk
        .patch_text(&server, "a", "x", 0, 0, "x")
        .unwrap_err()
        .starts_with("stale_revision:"));
    assert_eq!(disk.read_text(&server, "a").unwrap(), "old");
    assert_eq!(disk.list(&server, None).unwrap().len(), 1);
}

#[test]
fn a_directory_is_listed_in_order() {
    let server = fixture();
    let mut disk = Disk::with(&[("b", ""), ("a/x", ""), ("a/y/z", ""), ("c", "")]);
    disk.links.insert("a2".to_owned());
    let entries = vec![
        ("a".to_owned(), "directory"),
        ("a2".to_owned(), "symlink"),
        ("b".to_owned(), "file"),
        ("c".to_owned(), "file"),
    ];
    assert_eq!(disk.list(&server, None).unwrap(), entries);
    assert_eq!(disk.list(&server, Some(".")).unwrap(), entries);
    assert_eq!(
        disk.list(&server, Some("./a")).unwrap(),
        vec![("x".to_owned(), "file"), ("y".to_owned(), "directory")]
    );
}

#[test]
fn a_listing_is_bounded() {
    let mut server = fixture();
    server.max_dir_entries = 2;
    let mut disk = Disk::with(&[("a", ""), ("b", "")]);
    assert_eq!(disk.list(&server, None).unwrap().len(), 2);
    disk.write("c", "");
    assert_eq!(
        disk.list(&server, None).unwrap_err(),
        "directory contains more than 2 entries"
    );
    server.max_dir_entries = 0;
    assert_eq!(
        disk.list(&server, None).unwrap_err(),
        "directory contains more than 0 entries"
    );
    assert!(Disk::default().list(&server, None).unwrap().is_empty());
}

#[test]
fn each_refusal_of_a_listing_says_why() {
    let server = fixture();
    let mut disk = Disk::with(&[("dir/a", "")]);
    disk.links.insert("link".to_owned());
    assert_eq!(
        disk.list(&server, Some("..")).unwrap_err(),
        "parent traversal (`..`) is not allowed"
    );
    assert_eq!(
        disk.list(&server, Some("link")).unwrap_err(),
        "path contains a symlink component: link"
    );
    assert_eq!(
        disk.list(&server, Some("missing")).unwrap_err(),
        "cannot open directory: no such directory"
    );
    for (failure, message) in [
        ("list", "cannot list directory: list failed"),
        ("next", "cannot read directory entry: next failed"),
        ("inspect entry", "cannot inspect entry: inspect entry failed"),
        ("inspect", "cannot inspect path component dir: no permission"),
    ] {
        disk.failures = vec![failure];
        assert_eq!(disk.list(&server, Some("dir")).unwrap_err(), message);
    }
}

#[test]
fn a_directory_is_created_with_its_parents() {
    let server = fixture();
    let mut disk = Disk::default();
    assert_eq!(
        disk.create_dir(&server, "./a//b/c").unwrap(),
        "created directory a/b/c"
    );
    assert_eq!(disk.log, ["inspect a", "create directory a/b/c"]);
    assert!(disk.dirs.contains("a/b"));
    disk.failures = vec!["create directory"];
    assert_eq!(
        disk.create_dir(&server, "d").unwrap_err(),
        "cannot create directory: disk full"
    );
    assert_eq!(
        disk.create_dir(&server, ".").unwrap_err(),
        "path must name an item below the configured root"
    );
    disk.links.insert("link".to_owned());
    assert_eq!(
        disk.create_dir(&server, "link/x").unwrap_err(),
        "path contains a symlink component: link"
    );
}

#[test]
fn a_patch_looks_for_changes_three_times() {
    let server = fixture();
    let mut disk = Disk::with(&[("a", "one two")]);
    let old = revision(b"one two");
    disk.interference = Some(("a".to_owned(), b"changed".to_vec()));
    assert_eq!(
        disk.patch_text(&server, "a", &old, 0, 3, "ONE")
            .unwrap_err(),
        format!(
            "stale_revision: expected {old}, current {}",
            revision(b"changed")
        )
    );
    assert_eq!(disk.text("a"), "changed");
    let reads = disk.log.iter().filter(|line| *line == "read 1025").count();
    assert_eq!(reads, 3);
}

#[test]
fn an_answer_to_something_else_changes_nothing() {
    let server = fixture();
    let mut disk = Disk::with(&[("a", "text")]);
    let mut step = server.read_text("a");
    let mut ignored = 0;
    let outcome = loop {
        match step {
            Step::Done(outcome) => break outcome,
            Step::Wait(task) => {
                ignored += 1;
                match server.resume(task, Event::NoEntry) {
                    Step::Done(_) => unreachable!(),
                    Step::Wait(task) => {
                        let event = disk.perform(&server.action(&task));
                        step = server.resume(task, event);
                    }
                }
            }
        }
    };
    assert_eq!(ignored, 4);
    assert!(matches!(outcome, Ok(Output::Text(text)) if text == "text"));
}

#[test]
fn a_client_is_told_whether_to_retry() {
    let server = fixture();
    let mut disk = Disk::with(&[("a", "text")]);
    let outcome = disk.run(
        &server,
        server.write_text("a", "new".to_owned(), true, Some("x".to_owned())),
    );
    let error = FilesystemServer::answer(outcome).unwrap_err();
    assert_eq!(error.code, "stale_revision");
    assert!(error.retryable);
    let outcome = disk.run(&server, server.read_text("b"));
    let error = FilesystemServer::answer(outcome).unwrap_err();
    assert_eq!(error.code, "filesystem_error");
    assert_eq!(error.message, "cannot open file: no such file");
    assert!(!error.retryable);
    let outcome = disk.run(&server, server.read_text("a"));
    assert!(matches!(
        FilesystemServer::answer(outcome),
        Ok(Output::Text(text)) if text == "text"
    ));
}

#[test]
fn a_path_through_a_symlink_is_only_looked_at() {
    let server = fixture();
    let starts: [fn(&FilesystemServer) -> Step; 8] = [
        |s| s.read_text("a/link/b"),
        |s| s.metadata("a/link/b"),
        |s| {
            s.read_range(ReadRangeArgs {
                path: "a/link/b".into(),
                offset: 0,
                max_bytes: 1,
            })
        },
        |s| {
            s.search_text_impl(SearchTextArgs {
                path: "a/link/b".into(),
                query: "x".into(),
                max_matches: 1,
            })
        },
        |s| {
            s.patch_text(PatchTextFileArgs {
                path: "a/link/b".into(),
                expected_revision: String::new(),
                start_byte: 0,
                end_byte: 0,
                replacement: String::new(),
            })
        },
        |s| s.list_dir("a/link/b"),
        |s| s.write_text("a/link/b", "new".to_owned(), true, None),
        |s| s.create_dir("a/link/b"),
    ];
    for start in starts {
        let mut disk = Disk::with(&[("a/x", "")]);
        disk.links.insert("a/link".to_owned());
        disk.outside.insert("b".to_owned(), b"secret".to_vec());
        assert_eq!(
            disk.run(&server, start(&server)).unwrap_err(),
            "path contains a symlink component: a/link"
        );
        assert_eq!(disk.log, ["inspect a", "inspect a/link"]);
        assert_eq!(disk.outside["b"], b"secret");
    }
}

#[test]
fn a_file_is_whole_at_every_moment_of_its_replacement() {
    let server = fixture();
    let old = revision(b"old text");
    for failure in ["", "create", "write", "sync", "rename", "remove"] {
        let mut disk = Disk::with(&[("a", "old text")]);
        disk.failures = vec![failure];
        let mut step = server.patch_text(PatchTextFileArgs {
            path: "a".into(),
            expected_revision: old.clone(),
            start_byte: 0,
            end_byte: 3,
            replacement: "new".into(),
        });
        while let Step::Wait(task) = step {
            assert_eq!(disk.text("a"), "old text");
            let event = disk.perform(&server.action(&task));
            step = server.resume(task, event);
        }
        let done = ["", "remove"].contains(&failure);
        assert_eq!(disk.text("a"), if done { "new text" } else { "old text" });
        assert!(matches!(step, Step::Done(outcome) if outcome.is_ok() == done));
        assert!(!disk.has_temporary_files());
    }
}

#[test]
fn a_request_waits_for_a_bounded_number_of_answers() {
    let server = fixture();
    let mut disk = Disk::with(&[("a/b", "old")]);
    let old = revision(b"old");
    disk.patch_text(&server, "a/b", &old, 0, 3, "new").unwrap();
    assert_eq!(disk.log.len(), 22);
    assert!(disk.log.len() <= 4 * 2 + 15);
    let mut disk = Disk::default();
    for i in 0..10 {
        disk.write(&format!("{i}"), "");
    }
    disk.list(&server, None).unwrap();
    assert_eq!(disk.log.len(), 3 + 2 * 10);
}

#[test]
fn a_directory_can_be_created_again() {
    let server = fixture();
    let mut disk = Disk::with(&[("x", "text")]);
    let first = disk.create_dir(&server, "a/b").unwrap();
    let dirs = disk.dirs.clone();
    let files = disk.files.clone();
    assert_eq!(dirs.iter().collect::<Vec<_>>(), ["a", "a/b"]);
    assert_eq!(disk.create_dir(&server, "a/b").unwrap(), first);
    assert_eq!(disk.dirs, dirs);
    assert_eq!(disk.files, files);
    assert_eq!(disk.text("x"), "text");
}

#[test]
fn a_refused_replacement_leaves_only_what_was_left_before() {
    let server = fixture();
    let old = revision(b"old");
    for failure in ["write", "sync", "rename"] {
        let mut disk = Disk::with(&[("a", "old"), (".a.mcp-leftover.tmp", "lost")]);
        let files = disk.files.clone();
        disk.failures = vec![failure];
        assert!(disk
            .write_text(&server, "a", "new", true, Some(&old))
            .is_err());
        assert_eq!(disk.files, files);
        assert!(disk.patch_text(&server, "a", &old, 0, 1, "O").is_err());
        assert_eq!(disk.files, files);
    }
}
