//! The messages with which requests are refused, and what clients are told about them.

use vstd::prelude::*;
use crate::text::{decimal, push_decimal};

verus! {

/// What comes with every refusal because of a revision.
pub open spec fn stale_prefix() -> Seq<char> {
    "stale_revision:"@
}

/// The file has the revision `current`, and not the one that the caller knows.
pub open spec fn stale_message(expected: Seq<char>, current: Seq<char>) -> Seq<char> {
    "stale_revision: expected "@ + expected + ", current "@ + current
}

pub(crate) fn stale_message_text(expected: &str, current: &str) -> (m: String)
    ensures
        m@ == stale_message(expected@, current@),
{
    let mut m = String::from_str("stale_revision: expected ");
    m.append(expected);
    m.append(", current ");
    m.append(current);
    m
}

/// A revision was expected of a file that cannot be read.
pub open spec fn stale_missing_message() -> Seq<char> {
    "stale_revision: target file does not exist"@
}

/// Something has more bytes than the limit allows.
pub open spec fn size_message(what: Seq<char>, len: nat, limit: nat) -> Seq<char> {
    what + " is "@ + decimal(len) + " bytes; limit is "@ + decimal(limit) + " bytes"@
}

pub(crate) fn size_message_text(what: &str, len: u64, limit: u64) -> (m: String)
    ensures
        m@ == size_message(what@, len as nat, limit as nat),
{
    let mut m = String::from_str(what);
    m.append(" is ");
    push_decimal(&mut m, len);
    m.append(" bytes; limit is ");
    push_decimal(&mut m, limit);
    m.append(" bytes");
    m
}

/// A message with a number in it.
pub open spec fn number_message(before: Seq<char>, n: nat, after: Seq<char>) -> Seq<char> {
    before + decimal(n) + after
}

pub(crate) fn number_message_text(before: &str, n: u64, after: &str) -> (m: String)
    ensures
        m@ == number_message(before@, n as nat, after@),
{
    let mut m = String::from_str(before);
    push_decimal(&mut m, n);
    m.append(after);
    m
}

/// A message that ends in what it is about.
pub(crate) fn message_about(what: &str, detail: &str) -> (m: String)
    ensures
        m@ == what@ + detail@,
{
    let mut m = String::from_str(what);
    m.append(detail);
    m
}

/// A part of a path could not be looked at.
pub open spec fn inspect_message(prefix: Seq<char>, error: Seq<char>) -> Seq<char> {
    "cannot inspect path component "@ + prefix + ": "@ + error
}

pub(crate) fn inspect_message_text(prefix: &str, error: &str) -> (m: String)
    ensures
        m@ == inspect_message(prefix@, error@),
{
    let mut m = String::from_str("cannot inspect path component ");
    m.append(prefix);
    m.append(": ");
    m.append(error);
    m
}

/// What a client is told about a refused request: a code to go by, a message to show, and whether
/// the same request can succeed once the client has looked at the file again.
#[derive(Debug)]
pub struct FilesystemError {
    pub code: &'static str,
    pub message: String,
    pub retryable: bool,
}

/// Whether `text` starts with `prefix`.
pub open spec fn starts_with(text: Seq<char>, prefix: Seq<char>) -> bool {
    prefix.len() <= text.len() && text.take(prefix.len() as int) == prefix
}

/// Whether a message says that a revision did not fit.
fn is_stale(message: &str) -> (r: bool)
    ensures
        r == starts_with(message@, stale_prefix()),
{
    let prefix = "stale_revision:";
    let n: usize = prefix.unicode_len();
    if message.unicode_len() < n {
        return false;
    }
    for i in 0..n
        invariant
            prefix@ == stale_prefix(),
            n == prefix@.len(),
            n <= message@.len(),
            forall|j: int| 0 <= j < i ==> message@[j] == prefix@[j],
    {
        if message.get_char(i) != prefix.get_char(i) {
            assert(message@.take(n as int)[i as int] != prefix@[i as int]);
            return false;
        }
    }
    assert(message@.take(n as int) =~= prefix@);
    true
}

/// What a client is told about a request that was refused with `message`.
pub fn filesystem_error(message: &str) -> (e: FilesystemError)
    ensures
        e.message@ == message@,
        e.code@ == (if starts_with(message@, stale_prefix()) {
            "stale_revision"@
        } else {
            "filesystem_error"@
        }),
        e.retryable == starts_with(message@, stale_prefix()),
{
    let stale = is_stale(message);
    let code = if stale {
        "stale_revision"
    } else {
        "filesystem_error"
    };
    FilesystemError { code, message: message.to_owned(), retryable: stale }
}

/// A message counts as one about a revision exactly if it is `stale_revision:` and anything behind
/// that.
pub proof fn law_stale_messages_are_known_by_their_start(text: Seq<char>)
    ensures
        starts_with(text, stale_prefix()) <==> exists|rest: Seq<char>|
            text == #[trigger] ("stale_revision:"@ + rest),
{
    let prefix = "stale_revision:"@;
    if starts_with(text, stale_prefix()) {
        let rest = text.skip(prefix.len() as int);
        assert(text =~= prefix + rest);
    }
    if exists|rest: Seq<char>| text == #[trigger] (prefix + rest) {
        let rest = choose|rest: Seq<char>| text == #[trigger] (prefix + rest);
        assert(text.take(prefix.len() as int) =~= prefix);
    }
}

/// A refusal because of a revision is told apart from all others: both messages that say so carry
/// the prefix that makes a client retry.
pub proof fn law_stale_messages_are_retryable(expected: Seq<char>, current: Seq<char>)
    ensures
        starts_with(stale_message(expected, current), stale_prefix()),
        starts_with(stale_missing_message(), stale_prefix()),
{
    reveal_strlit("stale_revision:");
    reveal_strlit("stale_revision: expected ");
    reveal_strlit("stale_revision: target file does not exist");
    assert(stale_message(expected, current).take(15) =~= stale_prefix());
    assert(stale_missing_message().take(15) =~= stale_prefix());
}

} // verus!
