//! Digests of chunk plaintext, and small byte utilities.
//!
//! A chunk is identified by the cryptographic hash of its plaintext.
//! The hash function itself is an external collaborator; its result is
//! named by the uninterpreted function [`digest_of`], and everything the
//! engine proves about integrity is stated over that name.

use vstd::prelude::*;

verus! {

/// Length in bytes of a chunk digest.
pub const DIGEST_SIZE: usize = 32;

/// The digest of a byte string. The value is computed by an outside
/// hash function; it depends on the bytes alone.
pub uninterp spec fn digest_of(data: Seq<u8>) -> Seq<u8>;

/// Relies on sha2::Sha256: the digest depends on the input bytes alone,
/// and is always 32 bytes long.
#[verifier::external_body]
pub(crate) fn calculate_digest(data: &[u8]) -> (r: Vec<u8>)
    ensures
        r@ == digest_of(data@),
        r@.len() == DIGEST_SIZE,
{
    <sha2::Sha256 as sha2::Digest>::digest(data).to_vec()
}

/// Byte-for-byte equality of two byte strings.
pub fn bytes_eq(a: &[u8], b: &[u8]) -> (r: bool)
    ensures
        r <==> a@ == b@,
{
    if a.len() != b.len() {
        return false;
    }
    let mut i: usize = 0;
    while i < a.len()
        invariant
            0 <= i <= a.len(),
            a@.len() == b@.len(),
            forall|j: int| 0 <= j < i ==> a@[j] == b@[j],
        decreases a.len() - i,
    {
        if a[i] != b[i] {
            return false;
        }
        i += 1;
    }
    proof {
        assert(a@ =~= b@);
    }
    true
}

/// An owned copy of a byte string.
pub fn copy_bytes(src: &[u8]) -> (r: Vec<u8>)
    ensures
        r@ == src@,
{
    let mut dv: Vec<u8> = Vec::new();
    let mut p: usize = 0;
    while p < src.len()
        invariant
            0 <= p <= src@.len(),
            dv@ == src@.take(p as int),
        decreases src@.len() - p,
    {
        dv.push(src[p]);
        proof {
            assert(dv@ =~= src@.take(p + 1));
        }
        p += 1;
    }
    proof {
        assert(dv@ =~= src@);
    }
    dv
}

/// The lower-case hexadecimal digit for a value below 16.
pub open spec fn hex_digit(n: u8) -> char
    recommends
        n < 16,
{
    "0123456789abcdef"@[n as int]
}

/// The lower-case hexadecimal rendering of a byte string: two digits
/// per byte, high digit first.
pub open spec fn hex_of(data: Seq<u8>) -> Seq<char> {
    Seq::new(
        2 * data.len(),
        |i: int| if i % 2 == 0 { hex_digit(data[i / 2] / 16) } else { hex_digit(data[i / 2] % 16) },
    )
}

/// Relies on hex::encode: lower-case hexadecimal, two digits per byte,
/// high digit first.
#[verifier::external_body]
pub(crate) fn to_hex(data: &[u8]) -> (r: String)
    ensures
        r@ == hex_of(data@),
{
    hex::encode(data)
}

} // verus!
