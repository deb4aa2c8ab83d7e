//! Literal search, line by line.

use vstd::prelude::*;
use vstd::utf8::{encode_utf8, is_char_boundary, pop_first_scalar, length_of_first_scalar, valid_utf8};
use crate::preview::{bounded_preview, law_preview_fits, preview_text};

verus! {

/// How many matches one search may return.
pub const MAX_SEARCH_MATCHES: usize = 100;

/// How many bytes of a line a preview may show, and how many a query may have.
pub const MAX_SEARCH_LINE_BYTES: usize = 4096;

/// How many matches a search returns where the caller does not say.
pub fn default_search_matches() -> (n: usize)
    ensures
        n == 100,
{
    100
}

/// One match: the line that it is in, counted from one, the bytes that it takes up in the file,
/// and the line itself as far as it fits into a preview.
#[derive(Debug)]
pub struct SearchMatch {
    pub line: u64,
    pub start_byte: u64,
    pub end_byte: u64,
    pub preview: String,
    pub preview_truncated: bool,
}

/// Where a match stands: its line, counted from one, its first byte, and where its line starts and
/// ends.
pub ghost struct Found {
    pub line: int,
    pub start: int,
    pub line_start: int,
    pub line_end: int,
}

/// Whether `query` stands at byte `at` of `bytes`.
pub open spec fn occurs_at(bytes: Seq<u8>, query: Seq<u8>, at: int) -> bool {
    0 <= at && at + query.len() <= bytes.len() && bytes.subrange(at, at + query.len()) == query
}

/// The end of the line that byte `start` is in: behind its newline, or the end of the file.
pub open spec fn line_end(bytes: Seq<u8>, start: int) -> int
    decreases bytes.len() - start,
{
    if start >= bytes.len() {
        bytes.len() as int
    } else if bytes[start] == 10 {
        start + 1
    } else {
        line_end(bytes, start + 1)
    }
}

/// The matches from byte `from` on that end by byte `end`, from left to right: after a match, the
/// search goes on behind it.
pub open spec fn matches_in(bytes: Seq<u8>, query: Seq<u8>, from: int, end: int) -> Seq<int>
    decreases end - from,
{
    if query.len() == 0 || from + query.len() > end {
        seq![]
    } else if occurs_at(bytes, query, from) {
        seq![from] + matches_in(bytes, query, from + query.len(), end)
    } else {
        matches_in(bytes, query, from + 1, end)
    }
}

/// The match that starts at a given byte of a given line.
pub open spec fn in_line(line: int, line_start: int, line_end: int) -> spec_fn(int) -> Found {
    |start: int| (Found { line, start, line_start, line_end })
}

/// The matches in one line.
pub open spec fn found_in_line(
    bytes: Seq<u8>,
    query: Seq<u8>,
    line: int,
    line_start: int,
) -> Seq<Found> {
    let line_end = line_end(bytes, line_start);
    matches_in(bytes, query, line_start, line_end).map_values(
        in_line(line, line_start, line_end),
    )
}

/// The matches in the lines from byte `line_start` on, where the line numbered `line` starts.
pub open spec fn found_from(
    bytes: Seq<u8>,
    query: Seq<u8>,
    line: int,
    line_start: int,
) -> Seq<Found>
    decreases bytes.len() - line_start,
    via found_from_decreases
{
    if line_start >= bytes.len() {
        seq![]
    } else {
        found_in_line(bytes, query, line, line_start) + found_from(
            bytes,
            query,
            line + 1,
            line_end(bytes, line_start),
        )
    }
}

#[via_fn]
proof fn found_from_decreases(bytes: Seq<u8>, query: Seq<u8>, line: int, line_start: int) {
    if line_start < bytes.len() {
        lemma_line_end(bytes, line_start);
    }
}

/// All matches in a file.
pub open spec fn found(bytes: Seq<u8>, query: Seq<u8>) -> Seq<Found> {
    found_from(bytes, query, 1, 0)
}

/// Whether `m` reports the match `f` of a query of `query_len` bytes.
pub open spec fn reports(m: SearchMatch, f: Found, bytes: Seq<u8>, query_len: nat) -> bool {
    &&& m.line == f.line
    &&& m.start_byte == f.start
    &&& m.end_byte == f.start + query_len
    &&& m.preview@ == preview_text(
        bytes.subrange(f.line_start, f.line_end),
        MAX_SEARCH_LINE_BYTES as int,
    )
    &&& m.preview_truncated == (f.line_end - f.line_start > MAX_SEARCH_LINE_BYTES)
}

/// Whether `matches` reports the matches in `all`, in their order.
pub open spec fn report(
    matches: Seq<SearchMatch>,
    all: Seq<Found>,
    bytes: Seq<u8>,
    query_len: nat,
) -> bool {
    &&& matches.len() == all.len()
    &&& forall|i: int|
        0 <= i < matches.len() ==> reports(#[trigger] matches[i], all[i], bytes, query_len)
}

/// A line ends behind its start, with a newline or with the file, and has no other newline.
proof fn lemma_line_end(bytes: Seq<u8>, start: int)
    requires
        start < bytes.len(),
    ensures
        start < line_end(bytes, start) <= bytes.len(),
        0 <= start && line_end(bytes, start) < bytes.len() ==> bytes[line_end(bytes, start) - 1]
            == 10,
        forall|i: int| start <= i < line_end(bytes, start) - 1 ==> bytes[i] != 10,
    decreases bytes.len() - start,
{
    reveal_with_fuel(line_end, 2);
    if bytes[start] != 10 && start + 1 < bytes.len() {
        lemma_line_end(bytes, start + 1);
    }
}

/// A byte below 128 is a character of its own, so that another one starts behind it.
proof fn lemma_boundary_after_ascii(bytes: Seq<u8>, k: int)
    requires
        valid_utf8(bytes),
        0 <= k < bytes.len(),
        bytes[k] < 128,
    ensures
        is_char_boundary(bytes, k + 1),
    decreases bytes.len(),
{
    let n = length_of_first_scalar(bytes);
    let rest = pop_first_scalar(bytes);
    if k == 0 {
        assert(is_char_boundary(rest, 0));
    } else {
        assert(n <= k);
        assert(rest[k - n] == bytes[k]);
        lemma_boundary_after_ascii(rest, k - n);
    }
}

/// Whether `query` stands at byte `at` of `bytes`.
fn occurs(bytes: &[u8], query: &[u8], at: usize) -> (r: bool)
    requires
        at + query@.len() <= bytes@.len(),
    ensures
        r == occurs_at(bytes@, query@, at as int),
{
    for i in 0..query.len()
        invariant
            at + query.len() <= bytes.len(),
            forall|j: int| 0 <= j < i ==> bytes@[at + j] == query@[j],
    {
        if bytes[at + i] != query[i] {
            assert(bytes@.subrange(at as int, at + query@.len())[i as int] != query@[i as int]);
            return false;
        }
    }
    assert(bytes@.subrange(at as int, at + query@.len()) =~= query@);
    true
}

fn find_line_end(bytes: &[u8], start: usize) -> (end: usize)
    requires
        start <= bytes@.len(),
    ensures
        end == line_end(bytes@, start as int),
{
    let mut i: usize = start;
    while i < bytes.len()
        invariant
            start <= i <= bytes@.len(),
            line_end(bytes@, i as int) == line_end(bytes@, start as int),
        decreases bytes@.len() - i,
    {
        if bytes[i] == 10 {
            return i + 1;
        }
        i += 1;
    }
    i
}

/// The first `max_matches` matches of `query` in `text`, and whether there are more. A match lies
/// within one line; the newline belongs to the line that it ends.
pub fn search_lines(text: &str, query: &str, max_matches: usize) -> (r: (Vec<SearchMatch>, bool))
    requires
        query@.len() > 0,
    ensures
        ({
            let bytes = encode_utf8(text@);
            let query_bytes = encode_utf8(query@);
            let all = found(bytes, query_bytes);
            let shown = if all.len() <= max_matches { all } else { all.take(max_matches as int) };
            &&& report(r.0@, shown, bytes, query_bytes.len())
            &&& r.1 == (all.len() > max_matches)
        }),
{
    let bytes: &[u8] = text.as_bytes();
    let wanted: &[u8] = query.as_bytes();
    let ghost b = bytes@;
    let ghost q = wanted@;
    let ghost all = found(b, q);
    proof {
        vstd::utf8::encode_utf8_valid_utf8(text@);
        vstd::utf8::encode_utf8_first_scalar(query@);
    }
    let mut matches: Vec<SearchMatch> = Vec::new();
    let mut rest: &str = text;
    let mut line_start: usize = 0;
    let mut index: u64 = 0;
    let ghost mut seen: Seq<Found> = seq![];
    assert(b.subrange(0, b.len() as int) =~= b);
    while line_start < bytes.len()
        invariant
            b == bytes@ && b == encode_utf8(text@),
            q == wanted@ && q == encode_utf8(query@),
            q.len() > 0,
            valid_utf8(b),
            all == found(b, q),
            line_start <= b.len(),
            index <= line_start,
            encode_utf8(rest@) == b.subrange(line_start as int, b.len() as int),
            valid_utf8(encode_utf8(rest@)),
            all =~= seen + found_from(b, q, index + 1, line_start as int),
            report(matches@, seen, b, q.len()),
            seen.len() <= max_matches,
        decreases b.len() - line_start,
    {
        let end: usize = find_line_end(bytes, line_start);
        let ghost rest_bytes = encode_utf8(rest@);
        proof {
            lemma_line_end(b, line_start as int);
            vstd::utf8::is_char_boundary_start_end_of_seq(rest_bytes);
            if end < b.len() {
                assert(rest_bytes[end - line_start - 1] == b[end - 1]);
                lemma_boundary_after_ascii(rest_bytes, end - line_start - 1);
            }
        }
        let (line, after) = rest.split_at(end - line_start);
        let ghost before = seen;
        let ghost here = found_in_line(b, q, index + 1, line_start as int);
        let ghost later = found_from(b, q, index + 2, end as int);
        let ghost as_found = in_line(index + 1, line_start as int, end as int);
        proof {
            assert(encode_utf8(line@) =~= b.subrange(line_start as int, end as int));
            assert(encode_utf8(after@) =~= b.subrange(end as int, b.len() as int));
            vstd::utf8::encode_utf8_valid_utf8(after@);
            assert(here =~= matches_in(b, q, line_start as int, end as int).map_values(as_found));
        }
        let mut from: usize = line_start;
        while from <= end && wanted.len() <= end - from
            invariant
                b == bytes@ && b == encode_utf8(text@),
                q == wanted@ && q == encode_utf8(query@),
                q.len() > 0,
                all == found(b, q),
                line_start <= from,
                end <= b.len(),
                index <= line_start < b.len(),
                encode_utf8(line@) == b.subrange(line_start as int, end as int),
                as_found == in_line(index + 1, line_start as int, end as int),
                before + here =~= seen + matches_in(b, q, from as int, end as int).map_values(
                    as_found,
                ),
                all =~= before + here + later,
                report(matches@, seen, b, q.len()),
                seen.len() <= max_matches,
            decreases end - from,
        {
            if occurs(bytes, wanted, from) {
                let ghost tail = matches_in(b, q, from + q.len(), end as int);
                let ghost f = as_found(from as int);
                proof {
                    assert((seq![from as int] + tail).map_values(as_found) =~= seq![f]
                        + tail.map_values(as_found));
                    assert(seen + (seq![f] + tail.map_values(as_found)) =~= seen.push(f)
                        + tail.map_values(as_found));
                }
                if matches.len() == max_matches {
                    assert(all.take(max_matches as int) =~= seen);
                    return (matches, true);
                }
                let (preview, preview_truncated) = bounded_preview(line, MAX_SEARCH_LINE_BYTES);
                let ghost shown = matches@;
                matches.push(
                    SearchMatch {
                        line: index + 1,
                        start_byte: from as u64,
                        end_byte: (from + wanted.len()) as u64,
                        preview,
                        preview_truncated,
                    },
                );
                proof {
                    seen = seen.push(f);
                    assert forall|i: int| 0 <= i < matches@.len() implies reports(
                        #[trigger] matches@[i],
                        seen[i],
                        b,
                        q.len(),
                    ) by {
                        if i < shown.len() {
                            assert(reports(shown[i], seen[i], b, q.len()));
                        }
                    }
                }
                from += wanted.len();
            } else {
                from += 1;
            }
        }
        proof {
            assert(matches_in(b, q, from as int, end as int).map_values(as_found) =~= seq![]);
            assert(seen =~= before + here);
        }
        rest = after;
        line_start = end;
        index += 1;
    }
    assert(all =~= seen);
    (matches, false)
}

/// What follows a valid text that stands at the start of another one starts with a character.
pub proof fn lemma_boundary_after_prefix(bytes: Seq<u8>, prefix: Seq<u8>)
    requires
        valid_utf8(bytes),
        valid_utf8(prefix),
        prefix.len() <= bytes.len(),
        bytes.take(prefix.len() as int) == prefix,
    ensures
        is_char_boundary(bytes, prefix.len() as int),
    decreases prefix.len(),
{
    if prefix.len() > 0 {
        assert(bytes.take(prefix.len() as int)[0] == bytes[0]);
        let rest = pop_first_scalar(bytes);
        let n = length_of_first_scalar(bytes);
        assert(n == length_of_first_scalar(prefix));
        assert(rest.take(prefix.len() - n) =~= bytes.take(prefix.len() as int).subrange(
            n,
            prefix.len() as int,
        ));
        lemma_boundary_after_prefix(rest, pop_first_scalar(prefix));
    }
}

proof fn lemma_boundaries_add(bytes: Seq<u8>, i: int, j: int)
    requires
        valid_utf8(bytes),
        is_char_boundary(bytes, i),
        0 <= i <= bytes.len(),
        valid_utf8(bytes.skip(i)),
        is_char_boundary(bytes.skip(i), j),
        0 <= j,
    ensures
        is_char_boundary(bytes, i + j),
    decreases bytes.len(),
{
    if i == 0 {
        assert(bytes.skip(0) =~= bytes);
    } else {
        let n = length_of_first_scalar(bytes);
        let rest = pop_first_scalar(bytes);
        assert(is_char_boundary(rest, i - n));
        assert(i >= n) by {
            reveal_with_fuel(is_char_boundary, 2);
        }
        assert(rest.skip(i - n) =~= bytes.skip(i));
        lemma_boundaries_add(rest, i - n, j);
        if i + j > bytes.len() {
            assert(j > bytes.skip(i).len());
            assert(false);
        }
    }
}

/// A text that occurs in another one starts and ends between characters there.
pub proof fn lemma_occurrence_boundaries(bytes: Seq<u8>, query: Seq<u8>, at: int)
    requires
        valid_utf8(bytes),
        valid_utf8(query),
        query.len() > 0,
        occurs_at(bytes, query, at),
    ensures
        is_char_boundary(bytes, at),
        is_char_boundary(bytes, at + query.len()),
{
    assert(bytes.subrange(at, at + query.len())[0] == bytes[at]);
    vstd::utf8::is_char_boundary_iff_not_is_continuation_byte(bytes, at);
    let tail = bytes.skip(at);
    assert(tail =~= bytes.subrange(at, bytes.len() as int));
    vstd::utf8::valid_utf8_split(bytes, at);
    assert(tail.take(query.len() as int) =~= query);
    lemma_boundary_after_prefix(tail, query);
    lemma_boundaries_add(bytes, at, query.len() as int);
}

/// The matches in a line stand in it, in order, apart from each other, and no other occurrence
/// lies outside all of them.
proof fn lemma_matches_in(bytes: Seq<u8>, query: Seq<u8>, from: int, end: int)
    requires
        query.len() > 0,
        0 <= from,
    ensures
        forall|i: int| 0 <= i < matches_in(bytes, query, from, end).len() ==> {
            let at = #[trigger] matches_in(bytes, query, from, end)[i];
            from <= at && at + query.len() <= end && occurs_at(bytes, query, at)
        },
        forall|i: int, j: int|
            0 <= i < j < matches_in(bytes, query, from, end).len() ==> #[trigger] matches_in(
                bytes,
                query,
                from,
                end,
            )[i] + query.len() <= #[trigger] matches_in(bytes, query, from, end)[j],
        forall|p: int|
            from <= p && p + query.len() <= end && #[trigger] occurs_at(bytes, query, p) ==> exists|
                i: int,
            |
                0 <= i < matches_in(bytes, query, from, end).len() && #[trigger] matches_in(
                    bytes,
                    query,
                    from,
                    end,
                )[i] <= p < matches_in(bytes, query, from, end)[i] + query.len(),
    decreases end - from,
{
    let all = matches_in(bytes, query, from, end);
    if from + query.len() > end {
    } else if occurs_at(bytes, query, from) {
        let next = from + query.len();
        lemma_matches_in(bytes, query, next, end);
        let rest = matches_in(bytes, query, next, end);
        assert(all =~= seq![from] + rest);
        assert forall|i: int| 0 <= i < all.len() implies ({
            let at = #[trigger] all[i];
            from <= at && at + query.len() <= end && occurs_at(bytes, query, at)
        }) by {
            if i > 0 {
                assert(all[i] == rest[i - 1]);
            }
        }
        assert forall|i: int, j: int| 0 <= i < j < all.len() implies #[trigger] all[i]
            + query.len() <= #[trigger] all[j] by {
            assert(all[j] == rest[j - 1]);
            if i > 0 {
                assert(all[i] == rest[i - 1]);
            }
        }
        assert forall|p: int|
            from <= p && p + query.len() <= end && #[trigger] occurs_at(
                bytes,
                query,
                p,
            ) implies exists|i: int|
            0 <= i < all.len() && #[trigger] all[i] <= p < all[i] + query.len() by {
            if p < next {
                assert(all[0] == from);
            } else {
                let k = choose|k: int|
                    0 <= k < rest.len() && #[trigger] rest[k] <= p < rest[k] + query.len();
                assert(all[k + 1] == rest[k]);
            }
        }
    } else {
        lemma_matches_in(bytes, query, from + 1, end);
        assert(all =~= matches_in(bytes, query, from + 1, end));
    }
}

/// How many newlines stand before byte `end`.
pub open spec fn newlines_before(bytes: Seq<u8>, end: int) -> nat
    decreases end,
{
    if end <= 0 {
        0
    } else {
        newlines_before(bytes, end - 1) + if bytes[end - 1] == 10 {
            1nat
        } else {
            0
        }
    }
}

proof fn lemma_newlines_in_line(bytes: Seq<u8>, start: int, i: int)
    requires
        0 <= start < bytes.len(),
        start <= i <= line_end(bytes, start),
    ensures
        newlines_before(bytes, i) == newlines_before(bytes, start) + if i == line_end(bytes, start)
            && bytes[i - 1] == 10 {
            1nat
        } else {
            0
        },
    decreases i - start,
{
    lemma_line_end(bytes, start);
    if i > start {
        lemma_newlines_in_line(bytes, start, i - 1);
    }
}

/// Whether `f` is a match of `query` that is where it claims to be.
pub open spec fn is_match(f: Found, bytes: Seq<u8>, query: Seq<u8>) -> bool {
    &&& occurs_at(bytes, query, f.start)
    &&& 0 <= f.line_start <= f.start
    &&& f.start + query.len() <= f.line_end <= bytes.len()
    &&& f.line_end == line_end(bytes, f.line_start)
    &&& f.line_start == 0 || bytes[f.line_start - 1] == 10
    &&& f.line == newlines_before(bytes, f.start) + 1
}

proof fn lemma_found_from(bytes: Seq<u8>, query: Seq<u8>, line: int, line_start: int)
    requires
        query.len() > 0,
        0 <= line_start <= bytes.len(),
        line_start == 0 || line_start == bytes.len() || bytes[line_start - 1] == 10,
        line_start < bytes.len() ==> line == newlines_before(bytes, line_start) + 1,
    ensures
        ({
            let all = found_from(bytes, query, line, line_start);
            &&& forall|i: int|
                0 <= i < all.len() ==> is_match(#[trigger] all[i], bytes, query) && line_start
                    <= all[i].start
            &&& forall|i: int, j: int|
                0 <= i < j < all.len() ==> #[trigger] all[i].start + query.len()
                    <= #[trigger] all[j].start
        }),
    decreases bytes.len() - line_start,
{
    if line_start < bytes.len() {
        let end = line_end(bytes, line_start);
        let all = found_from(bytes, query, line, line_start);
        let starts = matches_in(bytes, query, line_start, end);
        let here = found_in_line(bytes, query, line, line_start);
        let later = found_from(bytes, query, line + 1, end);
        lemma_line_end(bytes, line_start);
        lemma_matches_in(bytes, query, line_start, end);
        lemma_newlines_in_line(bytes, line_start, end);
        lemma_found_from(bytes, query, line + 1, end);
        assert forall|i: int| 0 <= i < all.len() implies is_match(#[trigger] all[i], bytes, query)
            && line_start <= all[i].start by {
            if i < here.len() {
                assert(all[i] == here[i]);
                assert(here[i].start == starts[i]);
                lemma_newlines_in_line(bytes, line_start, starts[i]);
            } else {
                assert(all[i] == later[i - here.len()]);
            }
        }
        assert forall|i: int, j: int| 0 <= i < j < all.len() implies #[trigger] all[i].start
            + query.len() <= #[trigger] all[j].start by {
            if i < here.len() {
                assert(here[i].start == starts[i]);
            }
            if j < here.len() {
                assert(here[j].start == starts[j]);
            } else {
                assert(all[j] == later[j - here.len()]);
                if i >= here.len() {
                    assert(all[i] == later[i - here.len()]);
                }
            }
        }
    }
}

/// A search reports true matches: the bytes that it points at are the query's, they lie in the
/// line whose number is given, and they start and end between characters. Matches come in the
/// order of the file and do not overlap.
pub proof fn law_search_is_sound(text: Seq<char>, query: Seq<char>)
    requires
        query.len() > 0,
    ensures
        ({
            let bytes = encode_utf8(text);
            let query_bytes = encode_utf8(query);
            let all = found(bytes, query_bytes);
            &&& forall|i: int|
                0 <= i < all.len() ==> {
                    &&& is_match(#[trigger] all[i], bytes, query_bytes)
                    &&& is_char_boundary(bytes, all[i].start)
                    &&& is_char_boundary(bytes, all[i].start + query_bytes.len())
                }
            &&& forall|i: int, j: int|
                0 <= i < j < all.len() ==> #[trigger] all[i].start + query_bytes.len()
                    <= #[trigger] all[j].start
        }),
{
    let bytes = encode_utf8(text);
    let query_bytes = encode_utf8(query);
    let all = found(bytes, query_bytes);
    vstd::utf8::encode_utf8_valid_utf8(text);
    vstd::utf8::encode_utf8_valid_utf8(query);
    vstd::utf8::encode_utf8_first_scalar(query);
    lemma_found_from(bytes, query_bytes, 1, 0);
    assert forall|i: int| 0 <= i < all.len() implies {
        &&& is_match(#[trigger] all[i], bytes, query_bytes)
        &&& is_char_boundary(bytes, all[i].start)
        &&& is_char_boundary(bytes, all[i].start + query_bytes.len())
    } by {
        lemma_occurrence_boundaries(bytes, query_bytes, all[i].start);
    }
}

/// Whether a match in `all` of a query of `query_len` bytes covers byte `at`.
pub open spec fn covered(all: Seq<Found>, query_len: nat, at: int) -> bool {
    exists|i: int|
        0 <= i < all.len() && (#[trigger] all[i]).start <= at < all[i].start + query_len
}

proof fn lemma_covered_in_sum(a: Seq<Found>, b: Seq<Found>, query_len: nat, at: int)
    requires
        covered(a, query_len, at) || covered(b, query_len, at),
    ensures
        covered(a + b, query_len, at),
{
    let all = a + b;
    if covered(a, query_len, at) {
        let i = choose|i: int|
            0 <= i < a.len() && (#[trigger] a[i]).start <= at < a[i].start + query_len;
        assert(all[i] == a[i]);
    } else {
        let i = choose|i: int|
            0 <= i < b.len() && (#[trigger] b[i]).start <= at < b[i].start + query_len;
        assert(all[a.len() + i] == b[i]);
    }
}

/// An occurrence that starts in a line, and has no newline but at its end, is covered by a match in
/// that line.
proof fn lemma_covered_in_line(
    bytes: Seq<u8>,
    query: Seq<u8>,
    line: int,
    line_start: int,
    at: int,
)
    requires
        query.len() > 0,
        0 <= line_start <= at < line_end(bytes, line_start),
        occurs_at(bytes, query, at),
        forall|k: int| at <= k < at + query.len() - 1 ==> bytes[k] != 10,
    ensures
        covered(found_in_line(bytes, query, line, line_start), query.len(), at),
{
    let end = line_end(bytes, line_start);
    let starts = matches_in(bytes, query, line_start, end);
    let here = found_in_line(bytes, query, line, line_start);
    assert(at + query.len() <= end) by {
        lemma_line_end(bytes, line_start);
        if at + query.len() > end {
            assert(bytes[end - 1] == 10);
        }
    }
    assert(exists|i: int|
        0 <= i < starts.len() && #[trigger] starts[i] <= at < starts[i] + query.len()) by {
        lemma_matches_in(bytes, query, line_start, end);
    }
    let i = choose|i: int|
        0 <= i < starts.len() && #[trigger] starts[i] <= at < starts[i] + query.len();
    assert(here[i].start == starts[i]);
}

proof fn lemma_covered_from(bytes: Seq<u8>, query: Seq<u8>, line: int, line_start: int, at: int)
    requires
        query.len() > 0,
        0 <= line_start <= at,
        occurs_at(bytes, query, at),
        forall|k: int| at <= k < at + query.len() - 1 ==> bytes[k] != 10,
    ensures
        covered(found_from(bytes, query, line, line_start), query.len(), at),
    decreases bytes.len() - line_start,
{
    let end = line_end(bytes, line_start);
    assert(line_start < end <= bytes.len()) by {
        lemma_line_end(bytes, line_start);
    }
    if at < end {
        lemma_covered_in_line(bytes, query, line, line_start, at);
    } else {
        lemma_covered_from(bytes, query, line + 1, end, at);
    }
    lemma_covered_in_sum(
        found_in_line(bytes, query, line, line_start),
        found_from(bytes, query, line + 1, end),
        query.len(),
        at,
    );
}

/// The line of a match is a text of its own.
pub proof fn lemma_line_is_text(f: Found, bytes: Seq<u8>, query: Seq<u8>)
    requires
        valid_utf8(bytes),
        query.len() > 0,
        is_match(f, bytes, query),
    ensures
        valid_utf8(bytes.subrange(f.line_start, f.line_end)),
{
    lemma_line_end(bytes, f.line_start);
    vstd::utf8::is_char_boundary_start_end_of_seq(bytes);
    if f.line_end < bytes.len() {
        lemma_boundary_after_ascii(bytes, f.line_end - 1);
    }
    let head = bytes.subrange(0, f.line_end);
    vstd::utf8::valid_utf8_split(bytes, f.line_end);
    vstd::utf8::is_char_boundary_start_end_of_seq(head);
    if f.line_start > 0 {
        assert(head[f.line_start - 1] == bytes[f.line_start - 1]);
        lemma_boundary_after_ascii(head, f.line_start - 1);
    }
    vstd::utf8::valid_utf8_split(head, f.line_start);
    assert(head.subrange(f.line_start, f.line_end) =~= bytes.subrange(f.line_start, f.line_end));
}

/// A search misses nothing: wherever the query occurs within a line, a reported match covers the
/// byte at which it starts.
pub proof fn law_search_is_complete(bytes: Seq<u8>, query: Seq<u8>, at: int)
    requires
        query.len() > 0,
        occurs_at(bytes, query, at),
        forall|k: int| at <= k < at + query.len() - 1 ==> bytes[k] != 10,
    ensures
        covered(found(bytes, query), query.len(), at),
{
    lemma_covered_from(bytes, query, 1, 0, at);
}

/// Whether `query` stands at byte `at` of `bytes` within one line: no byte of it is a newline but,
/// perhaps, the last one.
pub open spec fn stands_in_a_line(bytes: Seq<u8>, query: Seq<u8>, at: int) -> bool {
    &&& 0 <= at
    &&& at + query.len() <= bytes.len()
    &&& forall|k: int| 0 <= k < query.len() ==> bytes[at + k] == #[trigger] query[k]
    &&& forall|k: int| 0 <= k < query.len() - 1 ==> #[trigger] query[k] != 10
}

/// Whether `m` shows the line of `bytes` from `line_start` up to `line_end`, as far as 4096 bytes go
/// without cutting a character, and says whether that is all of it.
pub open spec fn shows_line(m: SearchMatch, bytes: Seq<u8>, line_start: int, line_end: int) -> bool {
    let line = bytes.subrange(line_start, line_end);
    let shown = encode_utf8(m.preview@);
    &&& 0 <= line_start <= m.start_byte
    &&& m.end_byte <= line_end <= bytes.len()
    &&& line_start == 0 || bytes[line_start - 1] == 10
    &&& line_end == bytes.len() || bytes[line_end - 1] == 10
    &&& forall|k: int| line_start <= k < line_end - 1 ==> #[trigger] bytes[k] != 10
    &&& shown == line.take(shown.len() as int)
    &&& m.preview_truncated <==> line.len() > 4096
    &&& line.len() <= 4096 ==> shown.len() == line.len()
    &&& line.len() > 4096 ==> {
        &&& shown.len() <= 4096
        &&& is_char_boundary(line, shown.len() as int)
        &&& forall|k: int| shown.len() < k <= 4096 ==> !#[trigger] is_char_boundary(line, k)
    }
}

proof fn lemma_newlines_counted(bytes: Seq<u8>, end: int)
    requires
        0 <= end <= bytes.len(),
    ensures
        newlines_before(bytes, end) == bytes.take(end).filter(|b: u8| b == 10).len(),
    decreases end,
{
    reveal(Seq::filter);
    if end > 0 {
        lemma_newlines_counted(bytes, end - 1);
        assert(bytes.take(end).drop_last() =~= bytes.take(end - 1));
    }
}

proof fn lemma_match_stands(f: Found, bytes: Seq<u8>, query: Seq<u8>)
    requires
        query.len() > 0,
        is_match(f, bytes, query),
    ensures
        stands_in_a_line(bytes, query, f.start),
{
    let at = f.start;
    let there = bytes.subrange(at, at + query.len());
    lemma_line_end(bytes, f.line_start);
    assert forall|k: int| 0 <= k < query.len() implies bytes[at + k] == #[trigger] query[k] by {
        assert(there[k] == query[k]);
    }
    assert forall|k: int| 0 <= k < query.len() - 1 implies #[trigger] query[k] != 10 by {
        assert(bytes[at + k] == query[k]);
    }
}

proof fn lemma_match_is_shown(m: SearchMatch, f: Found, bytes: Seq<u8>, query: Seq<u8>)
    requires
        valid_utf8(bytes),
        query.len() > 0,
        is_match(f, bytes, query),
        reports(m, f, bytes, query.len()),
    ensures
        shows_line(m, bytes, f.line_start, f.line_end),
{
    let line = bytes.subrange(f.line_start, f.line_end);
    lemma_line_end(bytes, f.line_start);
    lemma_line_is_text(f, bytes, query);
    vstd::utf8::decode_utf8_encode_utf8(line);
    let text = vstd::utf8::decode_utf8(line);
    law_preview_fits(text, 4096);
    let shown = encode_utf8(m.preview@);
    assert(shown =~= line.take(shown.len() as int));
    if line.len() <= 4096 {
        vstd::utf8::is_char_boundary_start_end_of_seq(line);
        if shown.len() < line.len() {
            assert(!is_char_boundary(line, line.len() as int));
        }
    }
}

/// What a search reports is right. Each match is the query, within one line, with the number of that
/// line and its text; matches come one behind the other. Where the result is not truncated, nothing
/// is missing: a match covers the first byte of every place at which the query stands in a line.
/// Where it is truncated, it has as many matches as were asked for, nothing is missing before the end
/// of the last one, and behind that the query stands once more.
pub proof fn law_search_reports_what_is_there(
    matches: Seq<SearchMatch>,
    truncated: bool,
    text: Seq<char>,
    query_text: Seq<char>,
    max_matches: int,
)
    requires
        query_text.len() > 0,
        max_matches >= 0,
        ({
            let all = found(encode_utf8(text), encode_utf8(query_text));
            let shown = if all.len() <= max_matches { all } else { all.take(max_matches) };
            &&& report(matches, shown, encode_utf8(text), encode_utf8(query_text).len())
            &&& truncated == (all.len() > max_matches)
        }),
    ensures
        matches.len() <= max_matches,
        forall|i: int|
            0 <= i < matches.len() ==> {
                let m = #[trigger] matches[i];
                let bytes = encode_utf8(text);
                &&& stands_in_a_line(bytes, encode_utf8(query_text), m.start_byte as int)
                &&& m.end_byte == m.start_byte + encode_utf8(query_text).len()
                &&& m.line == 1 + bytes.take(m.start_byte as int).filter(|b: u8| b == 10).len()
                &&& exists|line_start: int, line_end: int|
                    #[trigger] shows_line(m, bytes, line_start, line_end)
            },
        forall|i: int, j: int|
            0 <= i < j < matches.len() ==> #[trigger] matches[i].end_byte <= #[trigger]
                matches[j].start_byte,
        forall|at: int|
            #[trigger] stands_in_a_line(encode_utf8(text), encode_utf8(query_text), at) && (
            !truncated || (matches.len() > 0 && at < matches.last().end_byte)) ==> exists|i: int|
                0 <= i < matches.len() && (#[trigger] matches[i]).start_byte <= at
                    < matches[i].end_byte,
        truncated ==> matches.len() == max_matches,
        truncated ==> exists|at: int|
            #[trigger] stands_in_a_line(encode_utf8(text), encode_utf8(query_text), at) && (
            matches.len() > 0 ==> at >= matches.last().end_byte),
{
    let bytes = encode_utf8(text);
    let query = encode_utf8(query_text);
    let all = found(bytes, query);
    let shown = if all.len() <= max_matches { all } else { all.take(max_matches) };
    vstd::utf8::encode_utf8_valid_utf8(text);
    vstd::utf8::encode_utf8_first_scalar(query_text);
    law_search_is_sound(text, query_text);
    assert forall|i: int| 0 <= i < matches.len() implies {
        let m = #[trigger] matches[i];
        &&& stands_in_a_line(bytes, query, m.start_byte as int)
        &&& m.end_byte == m.start_byte + query.len()
        &&& m.line == 1 + bytes.take(m.start_byte as int).filter(|b: u8| b == 10).len()
        &&& exists|line_start: int, line_end: int|
            #[trigger] shows_line(m, bytes, line_start, line_end)
    } by {
        let m = matches[i];
        let f = shown[i];
        assert(f == all[i]);
        assert(reports(m, f, bytes, query.len()));
        assert(is_match(all[i], bytes, query));
        lemma_match_stands(f, bytes, query);
        lemma_match_is_shown(m, f, bytes, query);
        lemma_newlines_counted(bytes, f.start);
    }
    assert forall|i: int, j: int| 0 <= i < j < matches.len() implies #[trigger]
        matches[i].end_byte <= #[trigger] matches[j].start_byte by {
        assert(reports(matches[i], shown[i], bytes, query.len()));
        assert(reports(matches[j], shown[j], bytes, query.len()));
        assert(all[i].start + query.len() <= all[j].start);
    }
    assert forall|at: int|
        #[trigger] stands_in_a_line(bytes, query, at) && (!truncated || (matches.len() > 0 && at
            < matches.last().end_byte)) implies exists|i: int|
        0 <= i < matches.len() && (#[trigger] matches[i]).start_byte <= at < matches[i].end_byte by {
        assert(bytes.subrange(at, at + query.len()) =~= query);
        assert forall|k: int| at <= k < at + query.len() - 1 implies bytes[k] != 10 by {
            assert(bytes[at + (k - at)] == query[k - at]);
        }
        law_search_is_complete(bytes, query, at);
        let i = choose|i: int|
            0 <= i < all.len() && (#[trigger] all[i]).start <= at < all[i].start + query.len();
        if i >= matches.len() {
            let last = matches.len() - 1;
            assert(reports(matches[last], shown[last], bytes, query.len()));
            assert(all[last].start + query.len() <= all[i].start);
        }
        assert(reports(matches[i], shown[i], bytes, query.len()));
    }
    if truncated {
        let next = all[max_matches];
        assert(is_match(all[max_matches], bytes, query));
        lemma_match_stands(next, bytes, query);
        if matches.len() > 0 {
            let last = matches.len() - 1;
            assert(reports(matches[last], shown[last], bytes, query.len()));
            assert(all[last].start + query.len() <= all[max_matches].start);
        }
    }
}

} // verus!
