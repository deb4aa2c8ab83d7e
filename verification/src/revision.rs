//! Revisions: the names under which versions of a file's content are known.

use vstd::prelude::*;
use sha2::Digest;
use crate::text::{digit, hex, is_hex_digit, lemma_same_hex, push_hex};

verus! {

/// What `sha2::Sha256::digest` returns for `data`.
pub uninterp spec fn sha256(data: Seq<u8>) -> Seq<u8>;

/// Calls `sha2::Sha256::digest`: the 32 bytes of the SHA-256 hash of `data`, which depend on
/// nothing but `data`.
#[verifier::external_body]
fn sha256_digest(data: &[u8]) -> (hash: Vec<u8>)
    ensures
        hash@ == sha256(data@),
        hash@.len() == 32,
{
    sha2::Sha256::digest(data).to_vec()
}

/// The revision of a file that holds `bytes`.
pub open spec fn revision_of(bytes: Seq<u8>) -> Seq<char> {
    "sha256:"@ + hex(sha256(bytes))
}

/// The revision of a file that holds `bytes`: `sha256:` and the hash in 64 lower-case hexadecimal
/// digits.
pub fn revision(bytes: &[u8]) -> (r: String)
    ensures
        r@ == revision_of(bytes@),
        r@.len() == 71,
        r@.take(7) == "sha256:"@,
        forall|i: int| 7 <= i < 71 ==> is_hex_digit(#[trigger] r@[i]),
        forall|i: int|
            7 <= i < 71 ==> #[trigger] r@[i] as int == ({
                let byte = sha256(bytes@)[(i - 7) / 2] as int;
                let value = if i % 2 == 1 { byte / 16 } else { byte % 16 };
                if value < 10 { 48 + value } else { 87 + value }
            }),
{
    let hash = sha256_digest(bytes);
    let mut text = String::from_str("sha256:");
    push_hex(&mut text, hash.as_slice());
    proof {
        law_revision_is_the_hash_of_all_bytes(bytes@);
        assert forall|i: int| 7 <= i < 71 implies is_hex_digit(#[trigger] text@[i]) by {
            let byte = hash@[(i - 7) / 2] as int;
            assert(0 <= byte / 16 < 16 && 0 <= byte % 16 < 16);
        }
    }
    text
}

/// A revision is `sha256:` and the hash of all bytes of the content, two hexadecimal digits for each
/// byte of the hash, the higher one first.
pub proof fn law_revision_is_the_hash_of_all_bytes(bytes: Seq<u8>)
    ensures
        revision_of(bytes).len() == 7 + 2 * sha256(bytes).len(),
        revision_of(bytes).take(7) == "sha256:"@,
        forall|i: int|
            7 <= i < revision_of(bytes).len() ==> #[trigger] revision_of(bytes)[i] as int == ({
                let byte = sha256(bytes)[(i - 7) / 2] as int;
                let value = if i % 2 == 1 { byte / 16 } else { byte % 16 };
                if value < 10 { 48 + value } else { 87 + value }
            }),
{
    reveal_strlit("sha256:");
    let r = revision_of(bytes);
    assert(r.take(7) =~= "sha256:"@);
    assert forall|i: int| 7 <= i < r.len() implies #[trigger] r[i] as int == ({
        let byte = sha256(bytes)[(i - 7) / 2] as int;
        let value = if i % 2 == 1 { byte / 16 } else { byte % 16 };
        if value < 10 { 48 + value } else { 87 + value }
    }) by {
        let byte = sha256(bytes)[(i - 7) / 2] as int;
        assert(r[i] == hex(sha256(bytes))[i - 7]);
        assert((i - 7) % 2 == 0 <==> i % 2 == 1);
        assert(r[i] == digit(if (i - 7) % 2 == 0 { byte / 16 } else { byte % 16 }));
    }
}

/// Two contents have the same revision exactly if, taken whole, they have the same hash.
pub proof fn law_revisions_tell_contents_apart(a: Seq<u8>, b: Seq<u8>)
    ensures
        revision_of(a) == revision_of(b) <==> sha256(a) == sha256(b),
{
    reveal_strlit("sha256:");
    if revision_of(a) == revision_of(b) {
        assert(hex(sha256(a)) =~= revision_of(a).skip(7));
        assert(hex(sha256(b)) =~= revision_of(b).skip(7));
        lemma_same_hex(sha256(a), sha256(b));
    }
}

} // verus!
