//! Content hashing: the SHA-256 digest of a file's bytes, written as
//! lowercase hexadecimal.

use vstd::prelude::*;
use sha2::Digest;

verus! {

/// The SHA-256 digest of `data`, 32 bytes.
pub uninterp spec fn sha256(data: Seq<u8>) -> Seq<u8>;

/// Computes the SHA-256 digest of `data`.
///
/// Trusted: calls `sha2::Sha256::digest`, which feeds `data` to a fresh
/// hasher and returns what it finalises to, and copies the output array into a
/// vector. The contract names that output and claims nothing else of it.
#[verifier::external_body]
pub(crate) fn sha256_of(data: &[u8]) -> (r: Vec<u8>)
    ensures
        r@ == sha256(data@),
{
    sha2::Sha256::digest(data).to_vec()
}

/// The lowercase hexadecimal digit of a value below 16.
pub open spec fn hex_digit(n: int) -> char {
    if n < 10 {
        ((48 + n) as u8) as char
    } else {
        ((87 + n) as u8) as char
    }
}

/// `bytes` in lowercase hexadecimal, two digits for each byte, the high half
/// first.
pub open spec fn hex_lower(bytes: Seq<u8>) -> Seq<char> {
    Seq::new(
        2 * bytes.len(),
        |i: int|
            if i % 2 == 0 {
                hex_digit(bytes[i / 2] as int / 16)
            } else {
                hex_digit(bytes[i / 2] as int % 16)
            },
    )
}

/// The hexadecimal digit of `n`.
fn hex_digit_of(n: u8) -> (c: char)
    requires
        n < 16,
    ensures
        c == hex_digit(n as int),
{
    if n < 10 {
        (48 + n) as char
    } else {
        (87 + n) as char
    }
}

/// Writes `bytes` in lowercase hexadecimal.
pub fn to_hex_lower(bytes: &[u8]) -> (r: Vec<char>)
    ensures
        r@ == hex_lower(bytes@),
{
    let mut r: Vec<char> = Vec::new();
    let mut k: usize = 0;
    while k < bytes.len()
        invariant
            k <= bytes.len(),
            r@ == hex_lower(bytes@.take(k as int)),
        decreases bytes.len() - k,
    {
        let b = bytes[k];
        let ghost before = r@;
        r.push(hex_digit_of(b / 16));
        r.push(hex_digit_of(b % 16));
        proof {
            let next = bytes@.take(k + 1);
            assert(r@.len() == 2 * next.len());
            assert forall|i: int| 0 <= i < r@.len() implies r@[i] == hex_lower(next)[i] by {
                if i < 2 * k {
                    assert(r@[i] == before[i]);
                    assert(next[i / 2] == bytes@.take(k as int)[i / 2]);
                } else {
                    assert(next[i / 2] == b);
                }
            }
            assert(r@ =~= hex_lower(next));
        }
        k += 1;
    }
    assert(bytes@.take(bytes.len() as int) == bytes@);
    r
}

/// The content hash of `content`: its SHA-256 digest in lowercase
/// hexadecimal.
pub open spec fn content_hash(content: Seq<u8>) -> Seq<char> {
    hex_lower(sha256(content))
}

} // verus!
