//! The two outside hash functions the store relies on, with the contracts the
//! rest of the crate assumes of them.

use vstd::prelude::*;

verus! {

/// The CRC-32 (IEEE) checksum of `bytes`, as `crc32fast::hash` computes it.
pub uninterp spec fn crc32_of(bytes: Seq<u8>) -> u32;

/// The XXH32 digest of `bytes` under `seed`, as `xxhash_rust::xxh32::xxh32`
/// computes it.
pub uninterp spec fn xxh32_of(bytes: Seq<u8>, seed: u32) -> u32;

/// `crc32fast::hash` is a function of the bytes alone, whichever of its
/// implementations the processor selects, and the checksum of no bytes is 0:
/// the hasher starts from state 0 and an empty update leaves it there.
pub assume_specification[ crc32fast::hash ](buf: &[u8]) -> (sum: u32)
    ensures
        sum == crc32_of(buf@),
        buf@.len() == 0 ==> sum == 0,
;

/// `xxhash_rust::xxh32::xxh32` is a function of the input bytes and the seed
/// alone; it reads its input little-endian on every target.
pub assume_specification[ xxhash_rust::xxh32::xxh32 ](input: &[u8], seed: u32) -> (digest: u32)
    ensures
        digest == xxh32_of(input@, seed),
;

} // verus!
