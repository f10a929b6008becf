//! Checksums and digests of byte strings: CRC-32, SHA-256, and hexadecimal
//! text.

use sha2::Digest;
use vstd::prelude::*;

verus! {

/// The SHA-256 digest of a byte string, as `sha2` computes it.
pub uninterp spec fn sha256(data: Seq<u8>) -> Seq<u8>;

/// The IEEE CRC-32 of a byte string, as `crc32fast` computes it.
pub uninterp spec fn crc32(data: Seq<u8>) -> u32;

/// The lowercase hexadecimal digit of a value below 16.
pub open spec fn hex_digit(n: int) -> char {
    if n < 10 {
        ((48 + n) as u8) as char
    } else {
        ((87 + n) as u8) as char
    }
}

/// Lowercase hexadecimal text of a byte string: two digits per byte, the high
/// half first.
pub open spec fn hex_string(data: Seq<u8>) -> Seq<char> {
    Seq::new(
        2 * data.len(),
        |i: int|
            if i % 2 == 0 {
                hex_digit(data[i / 2] as int / 16)
            } else {
                hex_digit(data[i / 2] as int % 16)
            },
    )
}

/// Calls `sha2::Sha256::digest`. Trusted: the 32 bytes returned are named
/// `sha256` of the input; nothing else is claimed of them.
#[verifier::external_body]
pub(crate) fn sha256_digest(data: &[u8]) -> (d: [u8; 32])
    ensures
        d@ == sha256(data@),
{
    sha2::Sha256::digest(data).into()
}

/// Calls `crc32fast::hash`. Trusted: the value returned is named `crc32` of
/// the input; nothing else is claimed of it.
#[verifier::external_body]
pub(crate) fn crc32_hash(data: &[u8]) -> (c: u32)
    ensures
        c == crc32(data@),
{
    crc32fast::hash(data)
}

/// Calls `hex::encode`. Trusted: the text returned has two lowercase
/// hexadecimal digits for each input byte, in order, as the crate documents.
#[verifier::external_body]
pub(crate) fn hex_encode(data: &[u8]) -> (s: String)
    ensures
        s@ == hex_string(data@),
{
    hex::encode(data)
}

/// Whether two byte strings are equal.
pub fn same_bytes(a: &[u8], b: &[u8]) -> (same: bool)
    ensures
        same == (a@ == b@),
{
    if a.len() != b.len() {
        return false;
    }
    let mut i: usize = 0;
    while i < a.len()
        invariant
            0 <= i <= a@.len(),
            a@.len() == b@.len(),
            forall|j: int| 0 <= j < i ==> a@[j] == b@[j],
        decreases a@.len() - i,
    {
        if a[i] != b[i] {
            return false;
        }
        i = i + 1;
    }
    assert(a@ =~= b@);
    true
}

/// SHA-256 of `data`.
pub fn sha256_bytes(data: &[u8]) -> (d: [u8; 32])
    ensures
        d@ == sha256(data@),
{
    sha256_digest(data)
}

/// SHA-256 of `data` as lowercase hexadecimal text, the form a manifest
/// stores.
pub fn sha256_hex(data: &[u8]) -> (s: String)
    ensures
        s@ == hex_string(sha256(data@)),
{
    let d = sha256_digest(data);
    hex_encode(d.as_slice())
}

} // verus!
