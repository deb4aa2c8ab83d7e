//! Previews of long lines.

use vstd::prelude::*;
use vstd::utf8::{decode_utf8, encode_utf8, is_char_boundary, valid_utf8};

verus! {

/// The last character boundary of the UTF-8 text `bytes` that is not beyond `limit`.
pub open spec fn boundary_before(bytes: Seq<u8>, limit: int) -> int
    decreases limit,
{
    if limit <= 0 || is_char_boundary(bytes, limit) {
        limit
    } else {
        boundary_before(bytes, limit - 1)
    }
}

/// How many bytes of a line its preview shows.
pub open spec fn preview_len(line: Seq<u8>, max_bytes: int) -> int {
    if line.len() <= max_bytes {
        line.len() as int
    } else {
        boundary_before(line, max_bytes)
    }
}

/// The preview of a line, which is given in UTF-8.
pub open spec fn preview_text(line: Seq<u8>, max_bytes: int) -> Seq<char> {
    decode_utf8(line.take(preview_len(line, max_bytes)))
}

/// The boundary is one, and none behind it is within the limit.
proof fn lemma_boundary_before(bytes: Seq<u8>, limit: int)
    requires
        valid_utf8(bytes),
        0 <= limit,
    ensures
        0 <= boundary_before(bytes, limit) <= limit,
        is_char_boundary(bytes, boundary_before(bytes, limit)),
        forall|i: int|
            boundary_before(bytes, limit) < i <= limit ==> !#[trigger] is_char_boundary(bytes, i),
    decreases limit,
{
    vstd::utf8::is_char_boundary_start_end_of_seq(bytes);
    if limit > 0 && !is_char_boundary(bytes, limit) {
        lemma_boundary_before(bytes, limit - 1);
    }
}

/// A preview is the start of its line, has no more bytes than it may, and is as long as it can be:
/// no character more would fit.
pub proof fn law_preview_fits(line: Seq<char>, max_bytes: int)
    requires
        0 <= max_bytes,
    ensures
        ({
            let bytes = encode_utf8(line);
            let shown = encode_utf8(preview_text(bytes, max_bytes));
            &&& shown.len() <= max_bytes
            &&& shown.is_prefix_of(bytes)
            &&& is_char_boundary(bytes, shown.len() as int)
            &&& forall|i: int|
                shown.len() < i <= max_bytes && i <= bytes.len() ==> !#[trigger] is_char_boundary(
                    bytes,
                    i,
                )
        }),
{
    let bytes = encode_utf8(line);
    let end = preview_len(bytes, max_bytes);
    vstd::utf8::encode_utf8_valid_utf8(line);
    vstd::utf8::is_char_boundary_start_end_of_seq(bytes);
    lemma_boundary_before(bytes, max_bytes);
    vstd::utf8::valid_utf8_split(bytes, end);
    assert(bytes.take(end) =~= bytes.subrange(0, end));
    vstd::utf8::decode_utf8_encode_utf8(bytes.take(end));
}

/// As much of `line` as fits into `max_bytes` bytes without cutting a character, and whether
/// anything was left out.
pub fn bounded_preview(line: &str, max_bytes: usize) -> (r: (String, bool))
    ensures
        r.0@ == preview_text(encode_utf8(line@), max_bytes as int),
        r.1 == (encode_utf8(line@).len() > max_bytes),
{
    let ghost bytes = encode_utf8(line@);
    proof {
        vstd::utf8::encode_utf8_valid_utf8(line@);
        vstd::utf8::encode_utf8_decode_utf8(line@);
        assert(bytes.take(bytes.len() as int) =~= bytes);
    }
    if line.as_bytes().len() <= max_bytes {
        return (line.to_owned(), false);
    }
    let mut end: usize = max_bytes;
    while !line.is_char_boundary(end)
        invariant
            valid_utf8(bytes),
            bytes == encode_utf8(line@),
            end <= max_bytes < bytes.len(),
            boundary_before(bytes, end as int) == boundary_before(bytes, max_bytes as int),
        decreases end,
    {
        end -= 1;
    }
    let (head, _) = line.split_at(end);
    proof {
        vstd::utf8::encode_utf8_decode_utf8(head@);
        assert(bytes.take(end as int) =~= bytes.subrange(0, end as int));
    }
    (head.to_owned(), true)
}

} // verus!
