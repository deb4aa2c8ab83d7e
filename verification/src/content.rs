//! What is answered about a file's content, and how a patch changes it.

use vstd::prelude::*;
use vstd::utf8::{encode_utf8, is_char_boundary, valid_utf8};
use crate::messages::{size_message, size_message_text, stale_message, stale_message_text};
use crate::paths::{displayed, RelPath};
use crate::preview::law_preview_fits;
use crate::revision::{revision, revision_of};
use crate::search::{
    found, is_match, law_search_is_sound, law_search_reports_what_is_there,
    lemma_boundary_after_prefix, lemma_line_is_text, report, reports, search_lines, shows_line,
    stands_in_a_line, SearchMatch, MAX_SEARCH_LINE_BYTES,
};
use crate::server::FilesystemServer;
use crate::text::{same_text, text_from_utf8};

verus! {

/// The part of a file that a client wants to read: at most `max_bytes` bytes from byte `offset` on.
#[derive(Debug)]
pub struct ReadRangeArgs {
    pub path: String,
    pub offset: u64,
    pub max_bytes: u64,
}

/// The text that a client looks for in a file, and how many matches are wanted.
#[derive(Debug)]
pub struct SearchTextArgs {
    pub path: String,
    pub query: String,
    pub max_matches: usize,
}

/// The replacement of the bytes from `start_byte` up to `end_byte` in a file that is known to have
/// the revision `expected_revision`.
#[derive(Debug)]
pub struct PatchTextFileArgs {
    pub path: String,
    pub expected_revision: String,
    pub start_byte: u64,
    pub end_byte: u64,
    pub replacement: String,
}

/// How large a file is, and the revision of what it holds.
#[derive(Debug)]
pub struct FileMetadata {
    pub path: String,
    pub size_bytes: u64,
    pub revision: String,
}

/// A part of a file's text, with the metadata of the whole file.
#[derive(Debug)]
pub struct FileMetadataText {
    pub path: String,
    pub size_bytes: u64,
    pub revision: String,
    pub offset: u64,
    pub text: String,
    pub truncated: bool,
}

/// What a search found in a file, and whether there are more matches than it shows.
#[derive(Debug)]
pub struct SearchResult {
    pub path: String,
    pub revision: String,
    pub matches: Vec<SearchMatch>,
    pub truncated: bool,
}

/// What was written, and the revision that the file has now.
#[derive(Debug)]
pub struct WriteResult {
    pub path: String,
    pub size_bytes: usize,
    pub revision: String,
}

/// The text of a whole file.
pub fn whole_text(bytes: &[u8]) -> (r: Result<String, String>)
    ensures
        if valid_utf8(bytes@) {
            r matches Ok(text) && encode_utf8(text@) == bytes@
        } else {
            r matches Err(m) && m@ == "file is not valid UTF-8; this server reads text only"@
        },
{
    match text_from_utf8(bytes) {
        Some(text) => Ok(text.to_owned()),
        None => Err(String::from_str("file is not valid UTF-8; this server reads text only")),
    }
}

/// Whether `m` are the metadata of the file `path` with the content `bytes`.
pub open spec fn describes(m: FileMetadata, path: Seq<Seq<char>>, bytes: Seq<u8>) -> bool {
    &&& m.path@ == displayed(path)
    &&& m.size_bytes == bytes.len()
    &&& m.revision@ == revision_of(bytes)
}

/// The metadata of the file `path` with the content `bytes`.
pub fn metadata_of(path: &RelPath, bytes: &[u8]) -> (m: FileMetadata)
    ensures
        describes(m, path@, bytes@),
        m.path@ == displayed(path@),
        m.size_bytes == bytes@.len(),
        m.revision@ == revision_of(bytes@),
{
    FileMetadata {
        path: path.display(),
        size_bytes: bytes.len() as u64,
        revision: revision(bytes),
    }
}

/// Where the part of a file of `len` bytes ends that a range asks for.
pub open spec fn range_end(offset: u64, max_bytes: u64, len: nat) -> int {
    if offset + (max_bytes as usize) <= len {
        offset + (max_bytes as usize)
    } else {
        len as int
    }
}

/// Why a range of a file cannot be read, if so.
pub open spec fn range_refusal(offset: u64, max_bytes: u64, bytes: Seq<u8>) -> Option<Seq<char>> {
    if offset > usize::MAX {
        Some("offset exceeds platform limit"@)
    } else if offset > bytes.len() {
        Some("offset is beyond end of file"@)
    } else if !valid_utf8(bytes.subrange(offset as int, range_end(offset, max_bytes, bytes.len()))) {
        Some("requested range is not valid UTF-8 text"@)
    } else {
        None
    }
}

/// Whether `t` is the part of the file `path` with the content `bytes` that a range asks for.
pub open spec fn describes_range(
    t: FileMetadataText,
    path: Seq<Seq<char>>,
    bytes: Seq<u8>,
    offset: u64,
    max_bytes: u64,
) -> bool {
    let end = range_end(offset, max_bytes, bytes.len());
    &&& t.path@ == displayed(path)
    &&& t.size_bytes == bytes.len()
    &&& t.revision@ == revision_of(bytes)
    &&& t.offset == offset
    &&& encode_utf8(t.text@) == bytes.subrange(offset as int, end)
    &&& t.truncated == (end < bytes.len())
}

/// The part of the file `path` with the content `bytes` that `args` asks for.
pub fn range_of(args: &ReadRangeArgs, path: &RelPath, bytes: &[u8]) -> (r: Result<
    FileMetadataText,
    String,
>)
    ensures
        match range_refusal(args.offset, args.max_bytes, bytes@) {
            Some(message) => r matches Err(m) && m@ == message,
            None => r matches Ok(t) && describes_range(
                t,
                path@,
                bytes@,
                args.offset,
                args.max_bytes,
            ),
        },
        r is Ok ==> args.offset <= bytes@.len(),
        args.max_bytes <= usize::MAX && args.offset <= bytes@.len() ==> {
            let rest = bytes@.skip(args.offset as int);
            let part = if args.max_bytes < rest.len() {
                rest.take(args.max_bytes as int)
            } else {
                rest
            };
            match r {
                Ok(t) => {
                    &&& encode_utf8(t.text@) == part
                    &&& t.truncated == (args.offset + args.max_bytes < bytes@.len())
                    &&& t.offset == args.offset
                    &&& t.path@ == displayed(path@)
                    &&& t.size_bytes == bytes@.len()
                    &&& t.revision@ == revision_of(bytes@)
                },
                Err(_) => !valid_utf8(part),
            }
        },
{
    proof {
        assert(bytes.len() <= usize::MAX);
        if args.offset <= bytes@.len() {
            law_range_is_what_was_asked_for(args.offset, args.max_bytes, bytes@);
        }
    }
    if args.offset > usize::MAX as u64 {
        return Err(String::from_str("offset exceeds platform limit"));
    }
    let start: usize = args.offset as usize;
    if start > bytes.len() {
        return Err(String::from_str("offset is beyond end of file"));
    }
    let wanted: usize = args.max_bytes as usize;
    let end: usize = if wanted <= bytes.len() - start {
        start + wanted
    } else {
        bytes.len()
    };
    match text_from_utf8(vstd::slice::slice_subrange(bytes, start, end)) {
        None => Err(String::from_str("requested range is not valid UTF-8 text")),
        Some(text) => Ok(
            FileMetadataText {
                path: path.display(),
                size_bytes: bytes.len() as u64,
                revision: revision(bytes),
                offset: args.offset,
                text: text.to_owned(),
                truncated: end < bytes.len(),
            },
        ),
    }
}

/// Whether `s` is what a search for `query` finds in the file `path` with the content `bytes`.
pub open spec fn describes_search(
    s: SearchResult,
    path: Seq<Seq<char>>,
    bytes: Seq<u8>,
    query: Seq<u8>,
    max_matches: int,
) -> bool {
    let all = found(bytes, query);
    let shown = if all.len() <= max_matches { all } else { all.take(max_matches) };
    &&& s.path@ == displayed(path)
    &&& s.revision@ == revision_of(bytes)
    &&& report(s.matches@, shown, bytes, query.len())
    &&& s.truncated == (all.len() > max_matches)
}

/// What the search that `args` asks for finds in the file `path` with the content `bytes`.
pub fn search_of(args: &SearchTextArgs, path: &RelPath, bytes: &[u8]) -> (r: Result<
    SearchResult,
    String,
>)
    requires
        args.query@.len() > 0,
    ensures
        if valid_utf8(bytes@) {
            r matches Ok(s) && describes_search(
                s,
                path@,
                bytes@,
                encode_utf8(args.query@),
                args.max_matches as int,
            )
        } else {
            r matches Err(m) && m@ == "file is not valid UTF-8; this server searches text only"@
        },
{
    match text_from_utf8(bytes) {
        None => Err(String::from_str("file is not valid UTF-8; this server searches text only")),
        Some(text) => {
            let (matches, truncated) = search_lines(text, args.query.as_str(), args.max_matches);
            Ok(
                SearchResult {
                    path: path.display(),
                    revision: revision(bytes),
                    matches,
                    truncated,
                },
            )
        },
    }
}

/// `bytes` with those from `start` up to `end` replaced.
pub open spec fn spliced(bytes: Seq<u8>, start: int, end: int, replacement: Seq<u8>) -> Seq<u8> {
    bytes.subrange(0, start) + replacement + bytes.subrange(end, bytes.len() as int)
}

/// Whether a patch may replace the bytes from `start` up to `end`.
pub open spec fn patchable(bytes: Seq<u8>, start: int, end: int) -> bool {
    &&& start <= end <= bytes.len()
    &&& is_char_boundary(bytes, start)
    &&& is_char_boundary(bytes, end)
}

/// What a patch makes of a file's content, or the message with which it is refused.
pub open spec fn patched(args: PatchTextFileArgs, bytes: Seq<u8>, max_file_bytes: u64) -> Result<
    Seq<u8>,
    Seq<char>,
> {
    let result = spliced(
        bytes,
        args.start_byte as int,
        args.end_byte as int,
        encode_utf8(args.replacement@),
    );
    if revision_of(bytes) != args.expected_revision@ {
        Err(stale_message(args.expected_revision@, revision_of(bytes)))
    } else if !valid_utf8(bytes) {
        Err("file is not valid UTF-8; this server patches text only"@)
    } else if args.start_byte > usize::MAX {
        Err("start_byte exceeds platform limit"@)
    } else if args.end_byte > usize::MAX {
        Err("end_byte exceeds platform limit"@)
    } else if !patchable(bytes, args.start_byte as int, args.end_byte as int) {
        Err("patch range must be ordered UTF-8 byte boundaries within file"@)
    } else if result.len() > max_file_bytes {
        Err(size_message("patched content"@, result.len(), max_file_bytes as nat))
    } else {
        Ok(result)
    }
}

/// Texts are encoded one after the other.
pub proof fn lemma_encode_add(a: Seq<char>, b: Seq<char>)
    ensures
        encode_utf8(a + b) == encode_utf8(a) + encode_utf8(b),
    decreases a.len(),
{
    if a.len() == 0 {
        assert(a + b =~= b);
        assert(encode_utf8(a) + encode_utf8(b) =~= encode_utf8(b));
    } else {
        assert((a + b).drop_first() =~= a.drop_first() + b);
        lemma_encode_add(a.drop_first(), b);
        assert(encode_utf8(a + b) =~= encode_utf8(a) + encode_utf8(b));
    }
}

impl FilesystemServer {
    /// What a patch makes of a file with the content `bytes`. It is refused where the file does
    /// not have the revision that the client expects, is not text, or would become too large, and
    /// where the range to replace is none or cuts a character.
    pub fn patch_of(&self, args: &PatchTextFileArgs, bytes: &[u8]) -> (r: Result<String, String>)
        ensures
            match patched(*args, bytes@, self.max_file_bytes) {
                Ok(result) => r matches Ok(text) && encode_utf8(text@) == result,
                Err(message) => r matches Err(m) && m@ == message,
            },
            ({
                let start = args.start_byte as int;
                let end = args.end_byte as int;
                let replacement = encode_utf8(args.replacement@);
                &&& r is Ok <==> {
                    &&& revision_of(bytes@) == args.expected_revision@
                    &&& valid_utf8(bytes@)
                    &&& start <= end <= bytes@.len()
                    &&& is_char_boundary(bytes@, start)
                    &&& is_char_boundary(bytes@, end)
                    &&& bytes@.len() - (end - start) + replacement.len() <= self.max_file_bytes
                }
                &&& r matches Ok(text) ==> encode_utf8(text@) == bytes@.take(start) + replacement
                    + bytes@.skip(end)
            }),
    {
        proof {
            law_patch_is_accepted_or_refused(*args, bytes@, self.max_file_bytes);
            assert(bytes.len() <= usize::MAX);
        }
        let actual = revision(bytes);
        if !same_text(actual.as_str(), args.expected_revision.as_str()) {
            return Err(stale_message_text(args.expected_revision.as_str(), actual.as_str()));
        }
        let text: &str = match text_from_utf8(bytes) {
            Some(text) => text,
            None => {
                return Err(
                    String::from_str("file is not valid UTF-8; this server patches text only"),
                );
            },
        };
        if args.start_byte > usize::MAX as u64 {
            return Err(String::from_str("start_byte exceeds platform limit"));
        }
        if args.end_byte > usize::MAX as u64 {
            return Err(String::from_str("end_byte exceeds platform limit"));
        }
        let start: usize = args.start_byte as usize;
        let end: usize = args.end_byte as usize;
        if start > end || end > bytes.len() || !text.is_char_boundary(start)
            || !text.is_char_boundary(end) {
            return Err(
                String::from_str("patch range must be ordered UTF-8 byte boundaries within file"),
            );
        }
        let (head, _) = text.split_at(start);
        let (_, tail) = text.split_at(end);
        let mut result: String = head.to_owned();
        result.append(args.replacement.as_str());
        result.append(tail);
        proof {
            lemma_encode_add(head@, args.replacement@);
            lemma_encode_add(head@ + args.replacement@, tail@);
        }
        let len: u64 = result.as_str().as_bytes().len() as u64;
        if len > self.max_file_bytes {
            return Err(size_message_text("patched content", len, self.max_file_bytes));
        }
        Ok(result)
    }
}

/// A range that starts within the file is what was asked for: `max_bytes` bytes from `offset` on, or
/// all that there are where they are fewer. It is refused only where these are no text, and it is
/// truncated only where the file has more.
pub proof fn law_range_is_what_was_asked_for(offset: u64, max_bytes: u64, bytes: Seq<u8>)
    requires
        offset <= bytes.len(),
    ensures
        max_bytes <= usize::MAX ==> {
            let end = range_end(offset, max_bytes, bytes.len());
            let rest = bytes.skip(offset as int);
            let part = if max_bytes < rest.len() { rest.take(max_bytes as int) } else { rest };
            &&& bytes.subrange(offset as int, end) == part
            &&& end < bytes.len() <==> offset + max_bytes < bytes.len()
            &&& offset <= usize::MAX ==> (range_refusal(offset, max_bytes, bytes) is Some
                <==> !valid_utf8(part))
        },
{
    if max_bytes <= usize::MAX {
        let end = range_end(offset, max_bytes, bytes.len());
        let rest = bytes.skip(offset as int);
        let part = if max_bytes < rest.len() { rest.take(max_bytes as int) } else { rest };
        assert(bytes.subrange(offset as int, end) =~= part);
    }
}

/// What is told of a range is true of the file: the text is the bytes that were asked for, neither
/// fewer nor more, and the metadata are those of the whole file.
pub proof fn law_range_tells_the_truth(
    t: FileMetadataText,
    path: Seq<Seq<char>>,
    bytes: Seq<u8>,
    offset: u64,
    max_bytes: u64,
)
    requires
        describes_range(t, path, bytes, offset, max_bytes),
        offset <= bytes.len(),
        max_bytes <= usize::MAX,
    ensures
        encode_utf8(t.text@).len() == (if max_bytes <= bytes.len() - offset {
            max_bytes as int
        } else {
            bytes.len() - offset
        }),
        forall|i: int|
            0 <= i < encode_utf8(t.text@).len() ==> #[trigger] encode_utf8(t.text@)[i]
                == bytes[offset + i],
        t.truncated <==> offset + max_bytes < bytes.len(),
        t.offset == offset,
        t.path@ == displayed(path),
        t.size_bytes == bytes.len(),
        t.revision@ == revision_of(bytes),
{
    law_range_is_what_was_asked_for(offset, max_bytes, bytes);
}

/// The metadata of a file are its path, the number of its bytes, and their revision.
pub proof fn law_metadata_tell_the_truth(m: FileMetadata, path: Seq<Seq<char>>, bytes: Seq<u8>)
    requires
        describes(m, path, bytes),
    ensures
        m.path@ == displayed(path),
        m.size_bytes == bytes.len(),
        m.revision@ == revision_of(bytes),
{
}

/// A patch is accepted exactly if the file has the expected revision and is text, the range is
/// ordered, within the file and cuts no character, and what it makes of the file is within the limit.
/// It then makes of the file what is before the range, the replacement, and what is behind the range.
pub proof fn law_patch_is_accepted_or_refused(
    args: PatchTextFileArgs,
    bytes: Seq<u8>,
    max_file_bytes: u64,
)
    requires
        bytes.len() <= usize::MAX,
    ensures
        ({
            let start = args.start_byte as int;
            let end = args.end_byte as int;
            let replacement = encode_utf8(args.replacement@);
            &&& patched(args, bytes, max_file_bytes) is Ok <==> {
                &&& revision_of(bytes) == args.expected_revision@
                &&& valid_utf8(bytes)
                &&& start <= end <= bytes.len()
                &&& is_char_boundary(bytes, start)
                &&& is_char_boundary(bytes, end)
                &&& bytes.len() - (end - start) + replacement.len() <= max_file_bytes
            }
            &&& patched(args, bytes, max_file_bytes) matches Ok(result) ==> result == bytes.take(
                start,
            ) + replacement + bytes.skip(end)
            &&& revision_of(bytes) != args.expected_revision@ ==> patched(
                args,
                bytes,
                max_file_bytes,
            ) == Err::<Seq<u8>, _>(
                "stale_revision: expected "@ + args.expected_revision@ + ", current "@
                    + revision_of(bytes),
            )
        }),
{
    let start = args.start_byte as int;
    let end = args.end_byte as int;
    let replacement = encode_utf8(args.replacement@);
    if start <= end <= bytes.len() {
        assert(spliced(bytes, start, end, replacement) =~= bytes.take(start) + replacement
            + bytes.skip(end));
    }
}

/// A patch changes the bytes of its range, and no others.
pub proof fn law_patch_keeps_the_rest(bytes: Seq<u8>, start: int, end: int, replacement: Seq<u8>)
    requires
        0 <= start <= end <= bytes.len(),
    ensures
        ({
            let result = spliced(bytes, start, end, replacement);
            &&& result.len() == bytes.len() - (end - start) + replacement.len()
            &&& result.take(start) == bytes.take(start)
            &&& result.subrange(start, start + replacement.len()) == replacement
            &&& result.skip(start + replacement.len()) == bytes.skip(end)
        }),
{
    let result = spliced(bytes, start, end, replacement);
    assert(result.take(start) =~= bytes.take(start));
    assert(result.subrange(start, start + replacement.len()) =~= replacement);
    assert(result.skip(start + replacement.len()) =~= bytes.skip(end));
}

/// A patch of a text makes a text again, and another patch may take back what it did: put in place
/// of the replacement, the bytes that were replaced give the text as it was.
pub proof fn law_patch_can_be_undone(bytes: Seq<u8>, start: int, end: int, replacement: Seq<u8>)
    requires
        valid_utf8(bytes),
        valid_utf8(replacement),
        0 <= start,
        patchable(bytes, start, end),
    ensures
        ({
            let result = spliced(bytes, start, end, replacement);
            &&& valid_utf8(result)
            &&& patchable(result, start, start + replacement.len())
            &&& spliced(
                result,
                start,
                start + replacement.len(),
                bytes.subrange(start, end),
            ) == bytes
        }),
{
    let head = bytes.subrange(0, start);
    let tail = bytes.subrange(end, bytes.len() as int);
    let result = spliced(bytes, start, end, replacement);
    vstd::utf8::valid_utf8_split(bytes, start);
    vstd::utf8::valid_utf8_split(bytes, end);
    vstd::utf8::valid_utf8_concat(head, replacement);
    vstd::utf8::valid_utf8_concat(head + replacement, tail);
    assert(result.take(head.len() as int) =~= head);
    lemma_boundary_after_prefix(result, head);
    assert(result.take((head + replacement).len() as int) =~= head + replacement);
    lemma_boundary_after_prefix(result, head + replacement);
    assert(spliced(result, start, start + replacement.len(), bytes.subrange(start, end))
        =~= bytes);
}

/// What a search points at can be patched: the bytes of each match are a range that a patch may
/// replace.
pub proof fn law_match_can_be_patched(text: Seq<char>, query: Seq<char>, i: int)
    requires
        query.len() > 0,
        0 <= i < found(encode_utf8(text), encode_utf8(query)).len(),
    ensures
        ({
            let start = found(encode_utf8(text), encode_utf8(query))[i].start;
            patchable(encode_utf8(text), start, start + encode_utf8(query).len())
        }),
{
    law_search_is_sound(text, query);
    assert(is_match(
        found(encode_utf8(text), encode_utf8(query))[i],
        encode_utf8(text),
        encode_utf8(query),
    ));
}

/// A part of a file has no more bytes than were asked for.
pub proof fn law_range_is_bounded(
    t: FileMetadataText,
    path: Seq<Seq<char>>,
    bytes: Seq<u8>,
    max_bytes: u64,
)
    requires
        describes_range(t, path, bytes, t.offset, max_bytes),
        t.offset <= bytes.len(),
    ensures
        encode_utf8(t.text@).len() <= max_bytes,
{
    assert(max_bytes as usize <= max_bytes) by (bit_vector);
}

/// A search returns no more matches than were asked for, and no preview has more bytes than a
/// preview may have.
pub proof fn law_search_is_bounded(
    s: SearchResult,
    path: Seq<Seq<char>>,
    text: Seq<char>,
    query: Seq<char>,
    max_matches: int,
)
    requires
        query.len() > 0,
        0 <= max_matches,
        describes_search(s, path, encode_utf8(text), encode_utf8(query), max_matches),
    ensures
        s.matches@.len() <= max_matches,
        forall|i: int|
            0 <= i < s.matches@.len() ==> encode_utf8(#[trigger] s.matches@[i].preview@).len()
                <= MAX_SEARCH_LINE_BYTES,
{
    let bytes = encode_utf8(text);
    let query_bytes = encode_utf8(query);
    let all = found(bytes, query_bytes);
    law_search_is_sound(text, query);
    vstd::utf8::encode_utf8_valid_utf8(text);
    vstd::utf8::encode_utf8_first_scalar(query);
    assert forall|i: int| 0 <= i < s.matches@.len() implies encode_utf8(
        #[trigger] s.matches@[i].preview@,
    ).len() <= MAX_SEARCH_LINE_BYTES by {
        let f = all[i];
        assert(is_match(f, bytes, query_bytes));
        lemma_line_is_text(f, bytes, query_bytes);
        let line = bytes.subrange(f.line_start, f.line_end);
        vstd::utf8::decode_utf8_encode_utf8(line);
        law_preview_fits(vstd::utf8::decode_utf8(line), MAX_SEARCH_LINE_BYTES as int);
        let shown = if all.len() <= max_matches { all } else { all.take(max_matches) };
        assert(shown[i] == f);
        assert(reports(s.matches@[i], shown[i], bytes, query_bytes.len()));
    }
}

/// What a search answers about a file is right: path and revision are the file's, each match is the
/// query within one line, one behind the other, and unless the result is truncated, every place at
/// which the query stands in a line is covered by a match.
pub proof fn law_search_tells_the_truth(
    s: SearchResult,
    path: Seq<Seq<char>>,
    text: Seq<char>,
    query: Seq<char>,
    max_matches: int,
)
    requires
        query.len() > 0,
        max_matches >= 0,
        describes_search(s, path, encode_utf8(text), encode_utf8(query), max_matches),
    ensures
        s.path@ == displayed(path),
        s.revision@ == revision_of(encode_utf8(text)),
        s.matches@.len() <= max_matches,
        forall|i: int|
            0 <= i < s.matches@.len() ==> {
                let m = #[trigger] s.matches@[i];
                let bytes = encode_utf8(text);
                &&& stands_in_a_line(bytes, encode_utf8(query), m.start_byte as int)
                &&& m.end_byte == m.start_byte + encode_utf8(query).len()
                &&& m.line == 1 + bytes.take(m.start_byte as int).filter(|b: u8| b == 10).len()
                &&& exists|line_start: int, line_end: int|
                    #[trigger] shows_line(m, bytes, line_start, line_end)
            },
        forall|i: int, j: int|
            0 <= i < j < s.matches@.len() ==> #[trigger] s.matches@[i].end_byte <= #[trigger]
                s.matches@[j].start_byte,
        forall|at: int|
            #[trigger] stands_in_a_line(encode_utf8(text), encode_utf8(query), at) && (
            !s.truncated || (s.matches@.len() > 0 && at < s.matches@.last().end_byte))
                ==> exists|i: int|
                0 <= i < s.matches@.len() && (#[trigger] s.matches@[i]).start_byte <= at
                    < s.matches@[i].end_byte,
        s.truncated ==> s.matches@.len() == max_matches,
        s.truncated ==> exists|at: int|
            #[trigger] stands_in_a_line(encode_utf8(text), encode_utf8(query), at) && (
            s.matches@.len() > 0 ==> at >= s.matches@.last().end_byte),
{
    law_search_reports_what_is_there(s.matches@, s.truncated, text, query, max_matches);
}

/// Parts of a file that are read one behind the other make up one part: where a part was truncated,
/// the next one goes on with the byte behind it.
pub proof fn law_ranges_join(
    path: Seq<Seq<char>>,
    bytes: Seq<u8>,
    first: FileMetadataText,
    second: FileMetadataText,
    max_bytes: u64,
    next_max_bytes: u64,
)
    requires
        describes_range(first, path, bytes, first.offset, max_bytes),
        describes_range(second, path, bytes, second.offset, next_max_bytes),
        first.offset <= bytes.len(),
        second.offset == first.offset + encode_utf8(first.text@).len(),
    ensures
        ({
            let end = range_end(second.offset, next_max_bytes, bytes.len());
            &&& encode_utf8(first.text@ + second.text@) == bytes.subrange(first.offset as int, end)
            &&& !second.truncated ==> end == bytes.len()
            &&& !first.truncated ==> second.text@.len() == 0
        }),
{
    let middle = range_end(first.offset, max_bytes, bytes.len());
    let end = range_end(second.offset, next_max_bytes, bytes.len());
    lemma_encode_add(first.text@, second.text@);
    assert(bytes.subrange(first.offset as int, middle) + bytes.subrange(middle, end)
        =~= bytes.subrange(first.offset as int, end));
    if !first.truncated && second.text@.len() > 0 {
        vstd::utf8::encode_utf8_first_scalar(second.text@);
    }
}

} // verus!
