//! The hash functions that fingerprint chunks and protect file bodies.

use vstd::prelude::*;

verus! {

/// The CRC-32 (IEEE) of some bytes.
pub uninterp spec fn crc32_of(data: Seq<u8>) -> u32;

/// The 64-bit XXH3 hash, with the default seed, of some bytes.
pub uninterp spec fn xxh3_of(data: Seq<u8>) -> u64;

/// The 32 bytes of the BLAKE3 hash of some bytes.
pub uninterp spec fn blake3_of(data: Seq<u8>) -> [u8; 32];

/// Calls `crc32fast::hash`, whose result depends on the bytes alone.
#[verifier::external_body]
pub(crate) fn crc32(data: &[u8]) -> (h: u32)
    ensures
        h == crc32_of(data@),
{
    crc32fast::hash(data)
}

/// Calls `twox_hash::XxHash3_64::oneshot`, whose result depends on the bytes
/// alone.
#[verifier::external_body]
pub(crate) fn xxh3(data: &[u8]) -> (h: u64)
    ensures
        h == xxh3_of(data@),
{
    twox_hash::XxHash3_64::oneshot(data)
}

/// Calls `blake3::hash`, whose result depends on the bytes alone.
#[verifier::external_body]
pub(crate) fn blake3(data: &[u8]) -> (h: [u8; 32])
    ensures
        h@ == blake3_of(data@)@,
{
    *blake3::hash(data).as_bytes()
}

} // verus!
