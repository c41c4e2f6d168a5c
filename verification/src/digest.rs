//! Hashes and checksums computed by outside crates.
use crate::support::num_text::{hex, hex_text};
use vstd::prelude::*;

verus! {

/// The BLAKE3 digest of a byte string.
pub uninterp spec fn blake3_digest(b: Seq<u8>) -> Seq<u8>;

/// The CRC-32 checksum of a byte string.
pub uninterp spec fn crc32_of(b: Seq<u8>) -> u32;

/// `blake3::hash`, handed out as its 32 bytes. The digest is a function of the input alone.
#[verifier::external_body]
pub(crate) fn blake3_bytes(b: &[u8]) -> (r: [u8; 32])
    ensures
        r@ == blake3_digest(b@),
{
    *blake3::hash(b).as_bytes()
}

/// `crc32fast::hash`. The checksum is a function of the input alone.
#[verifier::external_body]
pub(crate) fn crc32(b: &[u8]) -> (r: u32)
    ensures
        r == crc32_of(b@),
{
    crc32fast::hash(b)
}

/// The digest of `b` as 64 lower-case hexadecimal digits.
pub fn blake3_hex(b: &[u8]) -> (r: String)
    ensures
        r@ == hex(blake3_digest(b@)),
{
    let d = blake3_bytes(b);
    hex_text(d.as_slice())
}

} // verus!
