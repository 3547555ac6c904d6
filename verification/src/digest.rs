//! The identity hash of an object: the SHA-1 digest of its encoded form,
//! written as lowercase hexadecimal text.

use sha1::{Digest, Sha1};
use vstd::prelude::*;

verus! {

/// The number of bytes in a digest.
pub const DIGEST_LEN: usize = 20;

/// The number of characters in an identity hash.
pub const IDENTITY_LEN: usize = 40;

/// The SHA-1 digest of a byte sequence.
pub uninterp spec fn sha1_of(data: Seq<u8>) -> Seq<u8>;

/// The sixteen lowercase hexadecimal digits, in order of value.
pub open spec fn hex_digits() -> Seq<char> {
    seq!['0', '1', '2', '3', '4', '5', '6', '7', '8', '9', 'a', 'b', 'c', 'd', 'e', 'f']
}

/// Whether `c` is a lowercase hexadecimal digit.
pub open spec fn is_hex_digit(c: char) -> bool {
    ('0' <= c && c <= '9') || ('a' <= c && c <= 'f')
}

/// The lowercase hexadecimal text of `data`: two digits for each byte, the
/// high half first.
pub open spec fn hex_chars(data: Seq<u8>) -> Seq<char> {
    Seq::new(
        2 * data.len(),
        |i: int|
            if i % 2 == 0 {
                hex_digits()[data[i / 2] as int / 16]
            } else {
                hex_digits()[data[i / 2] as int % 16]
            },
    )
}

/// The identity hash of an encoded object.
pub open spec fn spec_identity(encoded: Seq<u8>) -> Seq<char> {
    hex_chars(sha1_of(encoded))
}

/// Hexadecimal text has twice the length of its data and holds lowercase
/// hexadecimal digits only.
pub proof fn hex_chars_shape(data: Seq<u8>)
    ensures
        hex_chars(data).len() == 2 * data.len(),
        forall|i: int| 0 <= i < hex_chars(data).len() ==> is_hex_digit(#[trigger] hex_chars(data)[i]),
{
    assert forall|i: int| 0 <= i < hex_chars(data).len() implies is_hex_digit(
        #[trigger] hex_chars(data)[i],
    ) by {
        let b = data[i / 2] as int;
        assert(0 <= b / 16 < 16 && 0 <= b % 16 < 16);
        let d = if i % 2 == 0 { b / 16 } else { b % 16 };
        assert(hex_chars(data)[i] == hex_digits()[d]);
        assert(forall|k: int| 0 <= k < 16 ==> is_hex_digit(#[trigger] hex_digits()[k]));
    }
}

/// Calls `Sha1::digest` of the `sha1` crate on `data` and hands back the
/// digest as a vector. Trusted: the result is the SHA-1 digest of `data`,
/// which is 20 bytes long.
#[verifier::external_body]
fn sha1_digest(data: &[u8]) -> (res: Vec<u8>)
    ensures
        res@ == sha1_of(data@),
        res@.len() == DIGEST_LEN,
{
    Sha1::digest(data).to_vec()
}

/// Calls `hex::encode` on `data`. Trusted: the result holds, for each byte
/// in turn, the lowercase hexadecimal digit of its high half and then that
/// of its low half.
#[verifier::external_body]
fn hex_encode(data: &Vec<u8>) -> (res: String)
    ensures
        res@ == hex_chars(data@),
{
    hex::encode(data)
}

/// The identity hash of an encoded object: 40 lowercase hexadecimal
/// digits that depend on the encoded bytes alone.
pub fn identity(encoded: &[u8]) -> (res: String)
    ensures
        res@ == spec_identity(encoded@),
        res@.len() == IDENTITY_LEN,
        forall|i: int| 0 <= i < res@.len() ==> is_hex_digit(#[trigger] res@[i]),
{
    let digest = sha1_digest(encoded);
    proof {
        hex_chars_shape(digest@);
    }
    hex_encode(&digest)
}

} // verus!
