//! Addressing: from a key to its hash, and from the hash and the table state
//! to a bucket.

use vstd::prelude::*;
use crate::le::spec_u64_from_le_bytes;

verus! {

/// The hash by which a key is addressed: its first eight bytes, read as a
/// little-endian integer.
pub open spec fn spec_hash(key: Seq<u8>) -> u64 {
    spec_u64_from_le_bytes(key.subrange(0, 8))
}

/// `2^level`, the number of base buckets at a level.
pub open spec fn base_count(level: u64) -> u64 {
    1u64 << level
}

/// The bucket a hash is addressed to: its low `level` bits, or, where these
/// name a bucket below the split pointer, its low `level + 1` bits.
pub open spec fn bucket_of(hash: u64, level: u64, split: u64) -> u64 {
    let b = hash & ((base_count(level) - 1) as u64);
    if b < split {
        hash & ((base_count((level + 1) as u64) - 1) as u64)
    } else {
        b
    }
}

/// Facts about `2^level` and the low bits of a hash.
pub proof fn lemma_base_count(hash: u64, level: u64)
    requires
        level <= 52,
    ensures
        1 <= base_count(level) <= 0x10_0000_0000_0000,
        level >= 1 ==> base_count(level) >= 2,
        base_count((level + 1) as u64) == 2 * base_count(level),
        hash & ((base_count(level) - 1) as u64) < base_count(level),
        ({
            let low = hash & ((base_count(level) - 1) as u64);
            let next = hash & ((base_count((level + 1) as u64) - 1) as u64);
            next == low || next == low + base_count(level)
        }),
{
    assert(1 <= (1u64 << level) <= 0x10_0000_0000_0000 && (level >= 1 ==> (1u64 << level) >= 2))
        by (bit_vector)
        requires
            level <= 52,
    ;
    assert((1u64 << ((level + 1) as u64)) == 2 * (1u64 << level)) by (bit_vector)
        requires
            level <= 52,
    ;
    assert(hash & (((1u64 << level) - 1) as u64) < (1u64 << level)) by (bit_vector)
        requires
            level <= 52,
    ;
    assert({
        let low = hash & (((1u64 << level) - 1) as u64);
        let next = hash & (((1u64 << ((level + 1) as u64)) - 1) as u64);
        next == low || next == low + (1u64 << level)
    }) by (bit_vector)
        requires
            level <= 52,
    ;
}

/// A level whose base buckets all lie in the addressable range is at most 52.
pub proof fn lemma_level_bound(level: u64)
    requires
        level < 64,
        base_count(level) < 0x10_0000_0000_0000,
    ensures
        level < 52,
{
    assert((1u64 << level) < 0x10_0000_0000_0000 ==> level < 52) by (bit_vector)
        requires
            level < 64,
    ;
}

/// A bucket address lies below the number of buckets.
pub proof fn lemma_bucket_of_bound(hash: u64, level: u64, split: u64)
    requires
        level <= 52,
        split < base_count(level),
    ensures
        bucket_of(hash, level, split) < base_count(level) + split,
{
    lemma_base_count(hash, level);
}

/// The bucket a hash is addressed to once the bucket of its low `level` bits
/// has been split: its low `level + 1` bits.
pub open spec fn dest_of(hash: u64, level: u64) -> u64 {
    hash & ((base_count((level + 1) as u64) - 1) as u64)
}

/// Whether table state `t2` is `t` with the split pointer advanced by one
/// bucket: to the next base bucket, or, past the last one, back to bucket 0
/// of the next level.
pub open spec fn advanced(level: u64, split: u64, level2: u64, split2: u64) -> bool {
    if split + 1 < base_count(level) {
        level2 == level && split2 == split + 1
    } else {
        level2 == level + 1 && split2 == 0
    }
}

/// Advancing the split pointer leaves the address of every hash unchanged
/// but for those of the bucket that was split, which go where one more bit
/// of the hash says: to the old bucket or to its sibling.
pub proof fn lemma_split_addressing(hash: u64, level: u64, split: u64, level2: u64, split2: u64)
    requires
        level <= 52,
        split < base_count(level),
        advanced(level, split, level2, split2),
    ensures
        bucket_of(hash, level, split) != split ==> bucket_of(hash, level2, split2) == bucket_of(
            hash,
            level,
            split,
        ),
        bucket_of(hash, level, split) == split ==> bucket_of(hash, level2, split2) == dest_of(
            hash,
            level,
        ),
        bucket_of(hash, level, split) == split ==> dest_of(hash, level) == split || dest_of(
            hash,
            level,
        ) == split + base_count(level),
{
    lemma_base_count(hash, level);
}

} // verus!
