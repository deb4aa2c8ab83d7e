use rust_mcp_filesystem::content::{
    metadata_of, range_of, search_of, whole_text, PatchTextFileArgs, ReadRangeArgs, SearchTextArgs,
};
use rust_mcp_filesystem::listing::{entry_kind, sort_entries, DirectoryEntry};
use rust_mcp_filesystem::locks::WriteLocks;
use rust_mcp_filesystem::messages::filesystem_error;
use rust_mcp_filesystem::search::{
    default_search_matches, search_lines, MAX_SEARCH_LINE_BYTES, MAX_SEARCH_MATCHES,
};
use rust_mcp_filesystem::text::{push_decimal, push_hex, same_bytes, same_text};
use rust_mcp_filesystem::{bounded_preview, revision, FilesystemServer, RelPath};

fn path(raw: &str) -> RelPath {
    FilesystemServer::clean_path(raw, false).unwrap()
}

fn server(max_file_bytes: u64) -> FilesystemServer {
    FilesystemServer::new(true, false, max_file_bytes, 10).unwrap()
}

#[test]
fn stale_revision_has_typed_error_code() {
    assert_eq!(
        filesystem_error("stale_revision: old").code,
        "stale_revision"
    );
    assert_eq!(
        filesystem_error("cannot open file").code,
        "filesystem_error"
    );
}

#[test]
fn only_stale_errors_are_retryable() {
    let stale = filesystem_error("stale_revision: expected a, current b");
    assert!(stale.retryable);
    assert_eq!(stale.message, "stale_revision: expected a, current b");
    let other = filesystem_error("cannot open file");
    assert!(!other.retryable);
    assert_eq!(other.message, "cannot open file");
    assert_eq!(filesystem_error("stale_revision").code, "filesystem_error");
    assert_eq!(filesystem_error("stale_revision:").code, "stale_revision");
    assert_eq!(filesystem_error("").code, "filesystem_error");
    assert_eq!(
        filesystem_error(" stale_revision:").code,
        "filesystem_error"
    );
}

#[test]
fn revisions_are_sha256_in_lower_case_hexadecimal() {
    assert_eq!(
        revision(b""),
        "sha256:e3b0c44298fc1c149afbf4c8996fb92427ae41e4649b934ca495991b7852b855"
    );
    assert_eq!(
        revision(b"abc"),
        "sha256:ba7816bf8f01cfea414140de5dae2223b00361a396177a9cb410ff61f20015ad"
    );
    assert_eq!(revision(&[0; 1000]).len(), 71);
}

#[test]
fn numbers_are_written_in_decimal() {
    for n in [0, 7, 10, 99, 100, 1_048_576, u64::MAX] {
        let mut text = String::from("n=");
        push_decimal(&mut text, n);
        assert_eq!(text, format!("n={n}"));
    }
}

#[test]
fn bytes_are_written_in_hexadecimal() {
    let mut text = String::from("x");
    push_hex(&mut text, &[0, 9, 10, 15, 16, 171, 255]);
    assert_eq!(text, "x00090a0f10abff");
}

#[test]
fn texts_and_bytes_are_told_apart() {
    assert!(same_text("", ""));
    assert!(same_text("äb", "äb"));
    assert!(!same_text("äb", "äc"));
    assert!(!same_text("a", "ab"));
    assert!(same_bytes(&[1, 2], &[1, 2]));
    assert!(!same_bytes(&[1, 2], &[2, 1]));
}

#[test]
fn a_short_line_is_its_own_preview() {
    assert_eq!(bounded_preview("abc", 3), ("abc".to_owned(), false));
    assert_eq!(bounded_preview("abc", 10), ("abc".to_owned(), false));
    assert_eq!(bounded_preview("", 0), (String::new(), false));
}

#[test]
fn a_preview_does_not_cut_a_character() {
    assert_eq!(bounded_preview("abcd", 2), ("ab".to_owned(), true));
    assert_eq!(bounded_preview("aαβ", 2), ("a".to_owned(), true));
    assert_eq!(bounded_preview("aαβ", 3), ("aα".to_owned(), true));
    assert_eq!(bounded_preview("aαβ", 4), ("aα".to_owned(), true));
    assert_eq!(bounded_preview("aαβ", 5), ("aαβ".to_owned(), false));
    assert_eq!(bounded_preview("😀x", 3), (String::new(), true));
    assert_eq!(bounded_preview("α", 0), (String::new(), true));
}

#[test]
fn a_search_returns_a_hundred_matches_by_default() {
    assert_eq!(default_search_matches(), 100);
    assert_eq!(MAX_SEARCH_MATCHES, 100);
    assert_eq!(MAX_SEARCH_LINE_BYTES, 4096);
}

#[test]
fn a_search_counts_lines_and_bytes() {
    let (matches, truncated) = search_lines("αbeta\nbeta beta\n\nxbeta", "beta", 10);
    assert!(!truncated);
    let found: Vec<(u64, u64, u64, &str)> = matches
        .iter()
        .map(|m| (m.line, m.start_byte, m.end_byte, m.preview.as_str()))
        .collect();
    assert_eq!(
        found,
        vec![
            (1, 2, 6, "αbeta\n"),
            (2, 7, 11, "beta beta\n"),
            (2, 12, 16, "beta beta\n"),
            (4, 19, 23, "xbeta"),
        ]
    );
    assert!(matches.iter().all(|m| !m.preview_truncated));
}

#[test]
fn a_search_goes_on_behind_a_match() {
    let (matches, truncated) = search_lines("aaaaa", "aa", 10);
    assert!(!truncated);
    let starts: Vec<u64> = matches.iter().map(|m| m.start_byte).collect();
    assert_eq!(starts, vec![0, 2]);
}

#[test]
fn a_match_lies_within_a_line() {
    assert_eq!(search_lines("a\nb", "a\nb", 10).0.len(), 0);
    let (matches, _) = search_lines("a\nb\n", "\n", 10);
    let places: Vec<(u64, u64)> = matches.iter().map(|m| (m.line, m.start_byte)).collect();
    assert_eq!(places, vec![(1, 1), (2, 3)]);
    assert_eq!(search_lines("", "a", 10).0.len(), 0);
}

#[test]
fn a_search_is_truncated_only_where_there_is_more() {
    let (matches, truncated) = search_lines("x x x", "x", 3);
    assert_eq!((matches.len(), truncated), (3, false));
    let (matches, truncated) = search_lines("x x\nx", "x", 2);
    assert_eq!((matches.len(), truncated), (2, true));
    let (matches, truncated) = search_lines("x", "x", 0);
    assert_eq!((matches.len(), truncated), (0, true));
}

#[test]
fn entries_are_called_by_the_first_type_that_they_have() {
    assert_eq!(entry_kind(true, false, false), "directory");
    assert_eq!(entry_kind(false, true, false), "file");
    assert_eq!(entry_kind(false, false, true), "symlink");
    assert_eq!(entry_kind(false, false, false), "other");
}

#[test]
fn entries_are_sorted_by_the_bytes_of_their_names() {
    let names = ["b", "ab", "", "a", "ä", "B", "a", "z"];
    let kinds = ["1", "2", "3", "4", "5", "6", "7", "8"];
    let entries = (0..names.len())
        .map(|i| DirectoryEntry {
            name: names[i].to_owned(),
            kind: kinds[i],
        })
        .collect();
    let sorted: Vec<(String, &str)> = sort_entries(entries)
        .into_iter()
        .map(|e| (e.name, e.kind))
        .collect();
    let mut expected: Vec<(String, &str)> = (0..names.len())
        .map(|i| (names[i].to_owned(), kinds[i]))
        .collect();
    expected.sort_by(|a, b| a.0.cmp(&b.0));
    assert_eq!(sorted, expected);
    assert_eq!(sorted[2], ("a".to_owned(), "4"));
    assert_eq!(sorted[3], ("a".to_owned(), "7"));
    assert!(sort_entries(Vec::new()).is_empty());
}

#[test]
fn each_file_has_one_lock() {
    let mut locks = WriteLocks::new();
    let a = locks.write_lock(&path("a"));
    let b = locks.write_lock(&path("dir/b"));
    assert_ne!(a, b);
    assert_eq!(locks.write_lock(&path("./a")), a);
    assert_eq!(locks.write_lock(&path("dir//b")), b);
    assert_eq!((a, b), (0, 1));
}

#[test]
fn a_file_that_is_no_text_is_refused() {
    assert_eq!(whole_text("aß".as_bytes()).unwrap(), "aß");
    assert_eq!(whole_text(b"").unwrap(), "");
    assert_eq!(
        whole_text(&[0xff]).unwrap_err(),
        "file is not valid UTF-8; this server reads text only"
    );
}

#[test]
fn metadata_give_size_and_revision() {
    let metadata = metadata_of(&path("./n/a"), b"abc");
    assert_eq!(metadata.path, "n/a");
    assert_eq!(metadata.size_bytes, 3);
    assert_eq!(metadata.revision, revision(b"abc"));
}

fn range(offset: u64, max_bytes: u64, bytes: &[u8]) -> Result<(String, bool), String> {
    let args = ReadRangeArgs {
        path: "a".into(),
        offset,
        max_bytes,
    };
    let range = range_of(&args, &path("a"), bytes)?;
    assert_eq!(range.path, "a");
    assert_eq!(range.size_bytes, bytes.len() as u64);
    assert_eq!(range.revision, revision(bytes));
    assert_eq!(range.offset, offset);
    Ok((range.text, range.truncated))
}

#[test]
fn ranges_end_with_the_file() {
    let bytes = "aßc".as_bytes();
    assert_eq!(range(0, 4, bytes), Ok(("aßc".into(), false)));
    assert_eq!(range(0, 100, bytes), Ok(("aßc".into(), false)));
    assert_eq!(range(0, 3, bytes), Ok(("aß".into(), true)));
    assert_eq!(range(1, 2, bytes), Ok(("ß".into(), true)));
    assert_eq!(range(4, 1, bytes), Ok((String::new(), false)));
    assert_eq!(range(1, u64::MAX, bytes), Ok(("ßc".into(), false)));
    assert_eq!(
        range(5, 1, bytes),
        Err("offset is beyond end of file".into())
    );
    assert_eq!(
        range(0, 2, bytes),
        Err("requested range is not valid UTF-8 text".into())
    );
    assert_eq!(
        range(2, 2, bytes),
        Err("requested range is not valid UTF-8 text".into())
    );
}

#[test]
fn ranges_behind_each_other_make_up_the_text() {
    let bytes = "first second".as_bytes();
    let (first, more) = range(0, 6, bytes).unwrap();
    assert!(more);
    let (second, more) = range(first.len() as u64, 100, bytes).unwrap();
    assert!(!more);
    assert_eq!(first + &second, "first second");
}

#[test]
fn a_search_needs_text() {
    let args = SearchTextArgs {
        path: "a".into(),
        query: "b".into(),
        max_matches: 5,
    };
    let result = search_of(&args, &path("a"), b"abcb").unwrap();
    assert_eq!(result.path, "a");
    assert_eq!(result.revision, revision(b"abcb"));
    assert_eq!(result.matches.len(), 2);
    assert!(!result.truncated);
    assert_eq!(
        search_of(&args, &path("a"), &[b'b', 0xff]).unwrap_err(),
        "file is not valid UTF-8; this server searches text only"
    );
}

fn patch(bytes: &[u8], start_byte: u64, end_byte: u64, replacement: &str) -> Result<String, String> {
    let args = PatchTextFileArgs {
        path: "a".into(),
        expected_revision: revision(bytes),
        start_byte,
        end_byte,
        replacement: replacement.into(),
    };
    server(8).patch_of(&args, bytes)
}

#[test]
fn a_patch_replaces_its_range() {
    let bytes = "aßcd".as_bytes();
    assert_eq!(patch(bytes, 1, 3, "b"), Ok("abcd".into()));
    assert_eq!(patch(bytes, 0, 0, "xy"), Ok("xyaßcd".into()));
    assert_eq!(patch(bytes, 5, 5, "!"), Ok("aßcd!".into()));
    assert_eq!(patch(bytes, 0, 5, ""), Ok(String::new()));
    assert_eq!(patch(b"", 0, 0, ""), Ok(String::new()));
}

#[test]
fn a_patch_can_be_taken_back() {
    let before = "aßcd";
    let after = patch(before.as_bytes(), 1, 3, "xyz").unwrap();
    assert_eq!(after, "axyzcd");
    assert_eq!(patch(after.as_bytes(), 1, 4, "ß"), Ok(before.into()));
}

#[test]
fn a_match_can_be_patched() {
    let text = "αbβbγ";
    let (matches, _) = search_lines(text, "β", 10);
    assert_eq!(matches.len(), 1);
    assert_eq!(
        patch(
            text.as_bytes(),
            matches[0].start_byte,
            matches[0].end_byte,
            "x"
        ),
        Ok("αbxbγ".into())
    );
}

#[test]
fn a_patch_that_does_not_fit_is_refused() {
    let bounds = "patch range must be ordered UTF-8 byte boundaries within file";
    let bytes = "aßcd".as_bytes();
    assert_eq!(patch(bytes, 2, 3, "b"), Err(bounds.into()));
    assert_eq!(patch(bytes, 1, 2, "b"), Err(bounds.into()));
    assert_eq!(patch(bytes, 3, 1, "b"), Err(bounds.into()));
    assert_eq!(patch(bytes, 3, 6, "b"), Err(bounds.into()));
    assert_eq!(
        patch(bytes, 0, 0, "1234"),
        Err("patched content is 9 bytes; limit is 8 bytes".into())
    );
    assert_eq!(patch(bytes, 0, 0, "123"), Ok("123aßcd".into()));
    assert_eq!(
        patch(&[0xff], 0, 0, ""),
        Err("file is not valid UTF-8; this server patches text only".into())
    );
    let args = PatchTextFileArgs {
        path: "a".into(),
        expected_revision: "old".into(),
        start_byte: 0,
        end_byte: 0,
        replacement: String::new(),
    };
    assert_eq!(
        server(8).patch_of(&args, b"abc"),
        Err(format!(
            "stale_revision: expected old, current {}",
            revision(b"abc")
        ))
    );
}

#[test]
fn a_server_exposes_a_directory() {
    let server = FilesystemServer::new(true, true, 5, 6).unwrap();
    assert!(server.read_only);
    assert_eq!(server.max_file_bytes, 5);
    assert_eq!(server.max_dir_entries, 6);
    assert_eq!(
        FilesystemServer::new(false, false, 1, 1).unwrap_err(),
        "root is not a directory"
    );
}

#[test]
fn only_a_read_only_server_may_not_write() {
    assert!(server(1).ensure_writable().is_ok());
    let server = FilesystemServer::new(true, true, 5, 6).unwrap();
    assert_eq!(
        server.ensure_writable().unwrap_err(),
        "server is running in read-only mode"
    );
}
