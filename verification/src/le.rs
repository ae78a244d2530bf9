//! Little-endian integers in byte buffers, and byte-string helpers.

use vstd::prelude::*;

verus! {

/// The four bytes of `x`, least significant first.
#[verifier::opaque]
pub open spec fn spec_u32_to_le_bytes(x: u32) -> Seq<u8> {
    seq![
        (x & 0xff) as u8,
        ((x >> 8) & 0xff) as u8,
        ((x >> 16) & 0xff) as u8,
        ((x >> 24) & 0xff) as u8,
    ]
}

/// The number that four bytes spell, least significant first.
#[verifier::opaque]
pub open spec fn spec_u32_from_le_bytes(s: Seq<u8>) -> u32 {
    (s[0] as u32) | (s[1] as u32) << 8 | (s[2] as u32) << 16 | (s[3] as u32) << 24
}

/// The eight bytes of `x`, least significant first.
#[verifier::opaque]
pub open spec fn spec_u64_to_le_bytes(x: u64) -> Seq<u8> {
    spec_u32_to_le_bytes((x & 0xffff_ffff) as u32) + spec_u32_to_le_bytes((x >> 32) as u32)
}

/// The number that eight bytes spell, least significant first.
#[verifier::opaque]
pub open spec fn spec_u64_from_le_bytes(s: Seq<u8>) -> u64 {
    (spec_u32_from_le_bytes(s.subrange(0, 4)) as u64) | (spec_u32_from_le_bytes(
        s.subrange(4, 8),
    ) as u64) << 32
}

/// A `u32` survives the trip through its little-endian bytes, which are four.
pub proof fn lemma_u32_le(x: u32)
    ensures
        spec_u32_to_le_bytes(x).len() == 4,
        spec_u32_from_le_bytes(spec_u32_to_le_bytes(x)) == x,
{
    reveal(spec_u32_to_le_bytes);
    reveal(spec_u32_from_le_bytes);
    let b0 = x & 0xff;
    let b1 = (x >> 8) & 0xff;
    let b2 = (x >> 16) & 0xff;
    let b3 = (x >> 24) & 0xff;
    assert(b0 < 256 && b1 < 256 && b2 < 256 && b3 < 256 && (b0 | b1 << 8 | b2 << 16 | b3 << 24)
        == x) by (bit_vector)
        requires
            b0 == x & 0xff,
            b1 == (x >> 8) & 0xff,
            b2 == (x >> 16) & 0xff,
            b3 == (x >> 24) & 0xff,
    ;
}

/// Four bytes are the little-endian bytes of the number they spell.
pub proof fn lemma_u32_bytes(s: Seq<u8>)
    requires
        s.len() == 4,
    ensures
        spec_u32_to_le_bytes(spec_u32_from_le_bytes(s)) == s,
{
    reveal(spec_u32_to_le_bytes);
    reveal(spec_u32_from_le_bytes);
    let s0 = s[0] as u32;
    let s1 = s[1] as u32;
    let s2 = s[2] as u32;
    let s3 = s[3] as u32;
    let x = spec_u32_from_le_bytes(s);
    assert(x & 0xff == s0 && (x >> 8) & 0xff == s1 && (x >> 16) & 0xff == s2 && (x >> 24) & 0xff
        == s3) by (bit_vector)
        requires
            x == s0 | s1 << 8 | s2 << 16 | s3 << 24,
            s0 < 256,
            s1 < 256,
            s2 < 256,
            s3 < 256,
    ;
    assert(spec_u32_to_le_bytes(x) =~= s);
}

/// Two different four-byte strings spell different numbers.
pub proof fn lemma_u32_le_injective(a: Seq<u8>, b: Seq<u8>)
    requires
        a.len() == 4,
        b.len() == 4,
        spec_u32_from_le_bytes(a) == spec_u32_from_le_bytes(b),
    ensures
        a == b,
{
    lemma_u32_bytes(a);
    lemma_u32_bytes(b);
}

/// A `u64` survives the trip through its little-endian bytes, which are
/// eight.
pub proof fn lemma_u64_le(x: u64)
    ensures
        spec_u64_to_le_bytes(x).len() == 8,
        spec_u64_from_le_bytes(spec_u64_to_le_bytes(x)) == x,
{
    reveal(spec_u64_to_le_bytes);
    reveal(spec_u64_from_le_bytes);
    let lo = (x & 0xffff_ffff) as u32;
    let hi = (x >> 32) as u32;
    lemma_u32_le(lo);
    lemma_u32_le(hi);
    let s = spec_u64_to_le_bytes(x);
    assert(s.subrange(0, 4) =~= spec_u32_to_le_bytes(lo));
    assert(s.subrange(4, 8) =~= spec_u32_to_le_bytes(hi));
    assert((x & 0xffff_ffff) < 0x1_0000_0000 && (x >> 32) < 0x1_0000_0000 && ((x & 0xffff_ffff) | (
    x >> 32) << 32) == x) by (bit_vector);
}

/// The number that four zero bytes spell is zero.
pub proof fn lemma_u32_zero(s: Seq<u8>)
    requires
        s.len() == 4,
        forall|i: int| 0 <= i < 4 ==> s[i] == 0u8,
    ensures
        spec_u32_from_le_bytes(s) == 0,
{
    reveal(spec_u32_from_le_bytes);
    assert((0u32 | 0u32 << 8 | 0u32 << 16 | 0u32 << 24) == 0u32) by (bit_vector);
}

/// A run of `n` bytes, each `byte`.
pub fn filled(byte: u8, n: usize) -> (v: Vec<u8>)
    ensures
        v@.len() == n,
        forall|i: int| 0 <= i < n ==> v@[i] == byte,
{
    let mut v: Vec<u8> = Vec::new();
    let mut i: usize = 0;
    while i < n
        invariant
            i <= n,
            v@.len() == i,
            forall|j: int| 0 <= j < i ==> v@[j] == byte,
        decreases n - i,
    {
        v.push(byte);
        i += 1;
    }
    v
}

/// Appends `src` to `out`.
pub fn put_bytes(out: &mut Vec<u8>, src: &[u8])
    ensures
        final(out)@ == old(out)@ + src@,
{
    let n = src.len();
    let mut i: usize = 0;
    while i < n
        invariant
            i <= n,
            n == src@.len(),
            out@ == old(out)@ + src@.subrange(0, i as int),
        decreases n - i,
    {
        out.push(src[i]);
        i += 1;
        assert(out@ =~= old(out)@ + src@.subrange(0, i as int));
    }
    assert(src@.subrange(0, n as int) =~= src@);
}

/// Appends the four little-endian bytes of `x` to `out`.
pub fn put_u32(out: &mut Vec<u8>, x: u32)
    ensures
        final(out)@ == old(out)@ + spec_u32_to_le_bytes(x),
        final(out)@.len() == old(out)@.len() + 4,
{
    proof {
        reveal(spec_u32_to_le_bytes);
    }
    assert((x & 0xff) < 256 && ((x >> 8) & 0xff) < 256 && ((x >> 16) & 0xff) < 256 && ((x >> 24)
        & 0xff) < 256) by (bit_vector);
    out.push((x & 0xff) as u8);
    out.push(((x >> 8) & 0xff) as u8);
    out.push(((x >> 16) & 0xff) as u8);
    out.push(((x >> 24) & 0xff) as u8);
    assert(out@ =~= old(out)@ + spec_u32_to_le_bytes(x));
}

/// Appends the eight little-endian bytes of `x` to `out`.
pub fn put_u64(out: &mut Vec<u8>, x: u64)
    ensures
        final(out)@ == old(out)@ + spec_u64_to_le_bytes(x),
        final(out)@.len() == old(out)@.len() + 8,
{
    proof {
        reveal(spec_u64_to_le_bytes);
    }
    assert((x & 0xffff_ffff) < 0x1_0000_0000 && (x >> 32) < 0x1_0000_0000) by (bit_vector);
    put_u32(out, (x & 0xffff_ffff) as u32);
    put_u32(out, (x >> 32) as u32);
    assert(out@ =~= old(out)@ + spec_u64_to_le_bytes(x));
}

/// Reads the little-endian `u32` at `buf[at..at + 4]`.
pub fn get_u32(buf: &[u8], at: usize) -> (x: u32)
    requires
        at + 4 <= buf@.len(),
    ensures
        x == spec_u32_from_le_bytes(buf@.subrange(at as int, at + 4)),
{
    proof {
        reveal(spec_u32_from_le_bytes);
    }
    let _ = buf.len();
    let b0 = buf[at] as u32;
    let b1 = buf[at + 1] as u32;
    let b2 = buf[at + 2] as u32;
    let b3 = buf[at + 3] as u32;
    b0 | b1 << 8 | b2 << 16 | b3 << 24
}

/// Reads the little-endian `u64` at `buf[at..at + 8]`.
pub fn get_u64(buf: &[u8], at: usize) -> (x: u64)
    requires
        at + 8 <= buf@.len(),
    ensures
        x == spec_u64_from_le_bytes(buf@.subrange(at as int, at + 8)),
{
    proof {
        reveal(spec_u64_from_le_bytes);
    }
    let _ = buf.len();
    let lo = get_u32(buf, at) as u64;
    let hi = get_u32(buf, at + 4) as u64;
    proof {
        let s = buf@.subrange(at as int, at + 8);
        assert(s.subrange(0, 4) =~= buf@.subrange(at as int, at + 4));
        assert(s.subrange(4, 8) =~= buf@.subrange(at + 4, at + 8));
    }
    lo | hi << 32
}

/// Whether two byte strings are equal.
pub fn bytes_eq(a: &[u8], b: &[u8]) -> (same: bool)
    ensures
        same == (a@ == b@),
{
    if a.len() != b.len() {
        return false;
    }
    let n = a.len();
    let mut i: usize = 0;
    while i < n
        invariant
            i <= n,
            n == a@.len(),
            n == b@.len(),
            forall|j: int| 0 <= j < i ==> a@[j] == b@[j],
        decreases n - i,
    {
        if a[i] != b[i] {
            return false;
        }
        i += 1;
    }
    assert(a@ =~= b@);
    true
}

} // verus!
