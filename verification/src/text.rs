//! Decimal and hexadecimal notation, text comparison and UTF-8 decoding.

use vstd::prelude::*;
use vstd::utf8::{encode_utf8, valid_utf8};

verus! {

/// `String::push` appends one character to the end of the string.
pub assume_specification[ String::push ](text: &mut String, c: char)
    ensures
        final(text)@ == old(text)@.push(c),
;

/// The character that stands for the digit `d` in bases up to sixteen.
pub open spec fn digit(d: int) -> char {
    if d < 10 {
        ('0' as int + d) as char
    } else {
        ('a' as int + d - 10) as char
    }
}

/// Whether `c` is a lower-case hexadecimal digit.
pub open spec fn is_hex_digit(c: char) -> bool {
    '0' <= c <= '9' || 'a' <= c <= 'f'
}

/// The decimal notation of `n`, without leading zeros.
pub open spec fn decimal(n: nat) -> Seq<char>
    decreases n,
{
    if n < 10 {
        seq![digit(n as int)]
    } else {
        decimal(n / 10).push(digit((n % 10) as int))
    }
}

/// Two lower-case hexadecimal digits for each byte, high digit first.
pub open spec fn hex(bytes: Seq<u8>) -> Seq<char> {
    Seq::new(
        2 * bytes.len(),
        |i: int| digit(if i % 2 == 0 { bytes[i / 2] as int / 16 } else { bytes[i / 2] as int % 16 }),
    )
}

/// The decimal notation of a number is made of digits that, read from left to right, give the
/// number, and it has no zero in front.
pub proof fn law_decimal_gives_the_number(n: nat)
    ensures
        decimal(n).fold_left(0int, |value: int, c: char| 10 * value + (c as int - '0' as int))
            == n,
        forall|i: int| 0 <= i < decimal(n).len() ==> '0' <= #[trigger] decimal(n)[i] <= '9',
        decimal(n).len() > 0,
        decimal(n).len() > 1 ==> decimal(n)[0] != '0',
    decreases n,
{
    let f = |value: int, c: char| 10 * value + (c as int - '0' as int);
    reveal_with_fuel(Seq::fold_left, 2);
    if n < 10 {
        assert(decimal(n).drop_last() =~= seq![]);
        assert(decimal(n).last() == digit(n as int));
    } else {
        let front = decimal(n / 10);
        law_decimal_gives_the_number(n / 10);
        assert(decimal(n).drop_last() =~= front);
        assert(decimal(n).last() == digit((n % 10) as int));
        assert(decimal(n)[0] == front[0]);
        if front.len() == 1 {
            assert(front.drop_last() =~= seq![]);
            assert(front.fold_left(0int, f) == front[0] as int - '0' as int);
        }
    }
}

/// Hexadecimal notation keeps byte strings apart.
pub proof fn lemma_same_hex(a: Seq<u8>, b: Seq<u8>)
    requires
        hex(a) == hex(b),
    ensures
        a == b,
{
    assert(hex(a).len() == 2 * a.len());
    assert(hex(b).len() == 2 * b.len());
    assert forall|i: int| 0 <= i < a.len() implies a[i] == b[i] by {
        let j = 2 * i;
        assert(j / 2 == i && (j + 1) / 2 == i && j % 2 == 0 && (j + 1) % 2 == 1);
        assert(hex(a)[j] == hex(b)[j]);
        assert(hex(a)[j + 1] == hex(b)[j + 1]);
        assert(hex(a)[j] == digit(a[i] as int / 16));
        assert(hex(b)[j] == digit(b[i] as int / 16));
        assert(hex(a)[j + 1] == digit(a[i] as int % 16));
        assert(hex(b)[j + 1] == digit(b[i] as int % 16));
    }
    assert(a =~= b);
}

fn digit_char(d: u8) -> (c: char)
    requires
        d < 16,
    ensures
        c == digit(d as int),
{
    if d < 10 {
        ('0' as u8 + d) as char
    } else {
        ('a' as u8 + (d - 10)) as char
    }
}

/// Appends the decimal notation of `n` to `text`.
pub fn push_decimal(text: &mut String, n: u64)
    ensures
        final(text)@ == old(text)@ + decimal(n as nat),
    decreases n,
{
    if n >= 10 {
        push_decimal(text, n / 10);
    }
    text.push(digit_char((n % 10) as u8));
    assert(text@ =~= old(text)@ + decimal(n as nat));
}

/// Appends the hexadecimal notation of `bytes` to `text`.
pub fn push_hex(text: &mut String, bytes: &[u8])
    ensures
        final(text)@ == old(text)@ + hex(bytes@),
{
    for i in 0..bytes.len()
        invariant
            text@ =~= old(text)@ + hex(bytes@.take(i as int)),
    {
        let byte: u8 = bytes[i];
        text.push(digit_char(byte / 16));
        text.push(digit_char(byte % 16));
        assert(hex(bytes@.take(i + 1)) =~= hex(bytes@.take(i as int)).push(digit(byte as int / 16)).push(digit(byte as int % 16)));
    }
    assert(bytes@.take(bytes@.len() as int) =~= bytes@);
}

/// Calls `std::str::from_utf8`, which gives back the text that `bytes` encode where they are valid
/// UTF-8, and an error, here `None`, where they are not.
#[verifier::external_body]
pub(crate) fn text_from_utf8(bytes: &[u8]) -> (text: Option<&str>)
    ensures
        text is Some <==> valid_utf8(bytes@),
        text matches Some(t) ==> encode_utf8(t@) == bytes@,
{
    match std::str::from_utf8(bytes) {
        Ok(text) => Some(text),
        Err(_) => None,
    }
}

/// Encoding in UTF-8 keeps texts apart.
pub proof fn lemma_same_encoding(a: Seq<char>, b: Seq<char>)
    requires
        encode_utf8(a) == encode_utf8(b),
    ensures
        a == b,
{
    vstd::utf8::encode_utf8_decode_utf8(a);
    vstd::utf8::encode_utf8_decode_utf8(b);
}

/// Whether two byte strings are the same.
pub fn same_bytes(a: &[u8], b: &[u8]) -> (same: bool)
    ensures
        same == (a@ == b@),
{
    if a.len() != b.len() {
        return false;
    }
    for i in 0..a.len()
        invariant
            a@.len() == b@.len(),
            forall|j: int| 0 <= j < i ==> a@[j] == b@[j],
    {
        if a[i] != b[i] {
            return false;
        }
    }
    assert(a@ =~= b@);
    true
}

/// Whether two texts are the same.
pub fn same_text(a: &str, b: &str) -> (same: bool)
    ensures
        same == (a@ == b@),
{
    let same = same_bytes(a.as_bytes(), b.as_bytes());
    proof {
        if same {
            lemma_same_encoding(a@, b@);
        }
    }
    same
}

} // verus!
