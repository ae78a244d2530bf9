//! Bucket pages and their byte encoding.
//!
//! A page is encoded as a 17-byte header (digest count, entry count, an
//! overflow flag and the overflow page id), the digests, each four bytes, and
//! the entries, each as key length, value length, key and value. All integers
//! are little-endian; the two lengths of an entry are 32 bits each.

use vstd::prelude::*;
use vstd::slice::{slice_subrange, slice_to_vec};
use core::ops::Range;
use crate::digest::xxh32_of;
use crate::error::{Error, Result};
use crate::le::{
    bytes_eq, get_u32, get_u64, lemma_u32_le, lemma_u64_le, put_bytes, put_u32, put_u64,
    spec_u32_from_le_bytes, spec_u32_to_le_bytes, spec_u64_from_le_bytes, spec_u64_to_le_bytes,
};

verus! {

/// The length of an encoded page's header.
pub const PAGE_HEADER_LEN: usize = 17;

/// The seed under which key digests are computed.
pub const DIGEST_SEED: u32 = 0;

/// The mathematical content of a page.
pub struct PageView {
    /// The cached key digests.
    pub hashes: Seq<u32>,
    /// The key-value pairs, in insertion order.
    pub entries: Seq<(Seq<u8>, Seq<u8>)>,
    /// The next page of the bucket's chain, if any.
    pub overflow_id: Option<u64>,
}

/// One page of a bucket: key digests, the key-value pairs they belong to, and
/// the link to the next page of the chain.
#[derive(Debug)]
pub struct Page {
    pub hashes: Vec<u32>,
    pub kv_pairs: Vec<(Vec<u8>, Vec<u8>)>,
    pub overflow_id: Option<u64>,
}

/// The key-value pairs of a page as byte strings.
pub open spec fn entries_view(kv: Seq<(Vec<u8>, Vec<u8>)>) -> Seq<(Seq<u8>, Seq<u8>)> {
    Seq::new(kv.len(), |i: int| (kv[i].0@, kv[i].1@))
}

impl View for Page {
    type V = PageView;

    open spec fn view(&self) -> PageView {
        PageView {
            hashes: self.hashes@,
            entries: entries_view(self.kv_pairs@),
            overflow_id: self.overflow_id,
        }
    }
}

/// The encoded length of one entry.
pub open spec fn entry_len(e: (Seq<u8>, Seq<u8>)) -> nat {
    8 + e.0.len() + e.1.len()
}

/// The encoding of one entry.
pub open spec fn entry_bytes(e: (Seq<u8>, Seq<u8>)) -> Seq<u8> {
    spec_u32_to_le_bytes(e.0.len() as u32) + spec_u32_to_le_bytes(e.1.len() as u32) + e.0 + e.1
}

/// The encoded length of a run of entries.
pub open spec fn entries_len(es: Seq<(Seq<u8>, Seq<u8>)>) -> nat
    decreases es.len(),
{
    if es.len() == 0 {
        0
    } else {
        entry_len(es[0]) + entries_len(es.drop_first())
    }
}

/// The encoding of a run of entries.
pub open spec fn entries_bytes(es: Seq<(Seq<u8>, Seq<u8>)>) -> Seq<u8>
    decreases es.len(),
{
    if es.len() == 0 {
        Seq::empty()
    } else {
        entry_bytes(es[0]) + entries_bytes(es.drop_first())
    }
}

/// The encoding of the digest array.
pub open spec fn hashes_bytes(hs: Seq<u32>) -> Seq<u8> {
    Seq::new(4 * hs.len(), |i: int| spec_u32_to_le_bytes(hs[i / 4])[i % 4])
}

/// The encoding of a page.
pub open spec fn encode(p: PageView) -> Seq<u8> {
    spec_u32_to_le_bytes(p.hashes.len() as u32) + spec_u32_to_le_bytes(p.entries.len() as u32)
        + seq![if p.overflow_id is Some { 1u8 } else { 0u8 }] + spec_u64_to_le_bytes(
        match p.overflow_id {
            Some(id) => id,
            None => 0,
        },
    ) + hashes_bytes(p.hashes) + entries_bytes(p.entries)
}

/// Reads exactly `n` entries from `b`, which must hold nothing else.
pub open spec fn parse_entries(b: Seq<u8>, n: nat) -> Option<Seq<(Seq<u8>, Seq<u8>)>>
    decreases n,
{
    if n == 0 {
        if b.len() == 0 {
            Some(Seq::empty())
        } else {
            None
        }
    } else if b.len() < 8 {
        None
    } else {
        let klen = spec_u32_from_le_bytes(b.subrange(0, 4)) as int;
        let vlen = spec_u32_from_le_bytes(b.subrange(4, 8)) as int;
        if b.len() < 8 + klen + vlen {
            None
        } else {
            match parse_entries(b.subrange(8 + klen + vlen, b.len() as int), (n - 1) as nat) {
                Some(rest) => Some(
                    seq![(b.subrange(8, 8 + klen), b.subrange(8 + klen, 8 + klen + vlen))] + rest,
                ),
                None => None,
            }
        }
    }
}

/// The page that `b` encodes, if it encodes one.
pub open spec fn decode(b: Seq<u8>) -> Option<PageView> {
    if b.len() < 17 {
        None
    } else {
        let nh = spec_u32_from_le_bytes(b.subrange(0, 4)) as int;
        let ne = spec_u32_from_le_bytes(b.subrange(4, 8)) as nat;
        if b[8] > 1 || b.len() < 17 + 4 * nh {
            None
        } else {
            match parse_entries(b.subrange(17 + 4 * nh, b.len() as int), ne) {
                Some(es) => Some(
                    PageView {
                        hashes: Seq::new(
                            nh as nat,
                            |i: int| spec_u32_from_le_bytes(b.subrange(17 + 4 * i, 21 + 4 * i)),
                        ),
                        entries: es,
                        overflow_id: if b[8] == 1 {
                            Some(spec_u64_from_le_bytes(b.subrange(9, 17)))
                        } else {
                            None
                        },
                    },
                ),
                None => None,
            }
        }
    }
}

/// The value of the first entry at or after `from` whose digest and key both
/// match `key`.
pub open spec fn lookup_from(p: PageView, key: Seq<u8>, from: int) -> Option<Seq<u8>>
    decreases p.hashes.len() - from,
{
    if from < 0 || from >= p.hashes.len() || from >= p.entries.len() {
        None
    } else if p.hashes[from] == xxh32_of(key, DIGEST_SEED) && p.entries[from].0 == key {
        Some(p.entries[from].1)
    } else {
        lookup_from(p, key, from + 1)
    }
}

impl PageView {
    /// The length of the page's encoding.
    pub open spec fn encoded_len(self) -> nat {
        17 + 4 * self.hashes.len() + entries_len(self.entries)
    }

    /// The value the page holds for `key`: that of the first entry whose
    /// digest and key both match.
    pub open spec fn lookup(self, key: Seq<u8>) -> Option<Seq<u8>> {
        lookup_from(self, key, 0)
    }

    /// Every entry has its digest, and the digest is that of the entry's key.
    pub open spec fn wf(self) -> bool {
        &&& self.hashes.len() == self.entries.len()
        &&& forall|i: int|
            0 <= i < self.entries.len() ==> #[trigger] self.hashes[i] == xxh32_of(
                self.entries[i].0,
                DIGEST_SEED,
            )
    }

    /// The page with one more entry at its end.
    pub open spec fn push(self, key: Seq<u8>, value: Seq<u8>) -> PageView {
        PageView {
            hashes: self.hashes.push(xxh32_of(key, DIGEST_SEED)),
            entries: self.entries.push((key, value)),
            overflow_id: self.overflow_id,
        }
    }

    /// The page with its link replaced.
    pub open spec fn with_overflow(self, overflow_id: Option<u64>) -> PageView {
        PageView { hashes: self.hashes, entries: self.entries, overflow_id }
    }

    /// The page without entries and without a link.
    pub open spec fn empty() -> PageView {
        PageView { hashes: Seq::empty(), entries: Seq::empty(), overflow_id: None }
    }
}

/// Encoding a run of entries distributes over concatenation, and so does its
/// length.
pub proof fn lemma_entries_concat(a: Seq<(Seq<u8>, Seq<u8>)>, b: Seq<(Seq<u8>, Seq<u8>)>)
    ensures
        entries_len(a + b) == entries_len(a) + entries_len(b),
        entries_bytes(a + b) == entries_bytes(a) + entries_bytes(b),
    decreases a.len(),
{
    if a.len() == 0 {
        assert(a + b =~= b);
        assert(entries_bytes(a) + entries_bytes(b) =~= entries_bytes(b));
    } else {
        lemma_entries_concat(a.drop_first(), b);
        assert((a + b).drop_first() =~= a.drop_first() + b);
        assert((a + b)[0] == a[0]);
        assert(entries_bytes(a + b) =~= entries_bytes(a) + entries_bytes(b));
    }
}

/// Appending one entry appends its encoding.
pub proof fn lemma_entries_push(es: Seq<(Seq<u8>, Seq<u8>)>, e: (Seq<u8>, Seq<u8>))
    ensures
        entries_len(es.push(e)) == entries_len(es) + entry_len(e),
        entries_bytes(es.push(e)) == entries_bytes(es) + entry_bytes(e),
{
    let one = seq![e];
    lemma_entries_concat(es, one);
    assert(es.push(e) =~= es + one);
    assert(one.drop_first() =~= Seq::<(Seq<u8>, Seq<u8>)>::empty());
    assert(entries_len(one) == entry_len(e) + entries_len(one.drop_first()));
    assert(entries_bytes(one) =~= entry_bytes(e)) by {
        assert(entries_bytes(one) == entry_bytes(e) + entries_bytes(one.drop_first()));
    }
}

/// A run of entries is as long as its parts: the first `i` entries and the
/// rest.
pub proof fn lemma_entries_len_take(es: Seq<(Seq<u8>, Seq<u8>)>, i: int)
    requires
        0 <= i <= es.len(),
    ensures
        entries_len(es) == entries_len(es.take(i)) + entries_len(es.skip(i)),
{
    lemma_entries_concat(es.take(i), es.skip(i));
    assert(es.take(i) + es.skip(i) =~= es);
}

/// The encoding of a run of entries has the length `entries_len` gives, and
/// every entry takes at least its eight length bytes.
pub proof fn lemma_entries_bytes_len(es: Seq<(Seq<u8>, Seq<u8>)>)
    ensures
        entries_bytes(es).len() == entries_len(es),
        entries_len(es) >= 8 * es.len(),
        forall|i: int| 0 <= i < es.len() ==> entry_len(#[trigger] es[i]) <= entries_len(es),
    decreases es.len(),
{
    if es.len() > 0 {
        let rest = es.drop_first();
        lemma_entries_bytes_len(rest);
        lemma_u32_le(es[0].0.len() as u32);
        lemma_u32_le(es[0].1.len() as u32);
        assert forall|i: int| 0 <= i < es.len() implies entry_len(#[trigger] es[i]) <= entries_len(
            es,
        ) by {
            if i > 0 {
                assert(es[i] == rest[i - 1]);
            }
        }
    }
}

/// A page's encoding has the length `encoded_len` gives.
pub proof fn lemma_encode_len(p: PageView)
    ensures
        encode(p).len() == p.encoded_len(),
{
    lemma_entries_bytes_len(p.entries);
    lemma_u32_le(p.hashes.len() as u32);
    lemma_u32_le(p.entries.len() as u32);
    lemma_u64_le(
        match p.overflow_id {
            Some(id) => id,
            None => 0,
        },
    );
}

/// Parsing yields as many entries as were asked for.
pub proof fn lemma_parse_entries_len(b: Seq<u8>, n: nat)
    ensures
        parse_entries(b, n) matches Some(es) ==> es.len() == n,
    decreases n,
{
    if n > 0 && b.len() >= 8 {
        let klen = spec_u32_from_le_bytes(b.subrange(0, 4)) as int;
        let vlen = spec_u32_from_le_bytes(b.subrange(4, 8)) as int;
        if b.len() >= 8 + klen + vlen {
            lemma_parse_entries_len(b.subrange(8 + klen + vlen, b.len() as int), (n - 1) as nat);
        }
    }
}

/// Parsing the encoding of a run of entries gives the entries back.
pub proof fn lemma_parse_entries_bytes(es: Seq<(Seq<u8>, Seq<u8>)>)
    requires
        forall|i: int|
            0 <= i < es.len() ==> (#[trigger] es[i]).0.len() <= u32::MAX && es[i].1.len()
                <= u32::MAX,
    ensures
        parse_entries(entries_bytes(es), es.len()) == Some(es),
    decreases es.len(),
{
    if es.len() > 0 {
        let e = es[0];
        let rest = es.drop_first();
        assert forall|i: int| 0 <= i < rest.len() implies (#[trigger] rest[i]).0.len() <= u32::MAX
            && rest[i].1.len() <= u32::MAX by {
            assert(rest[i] == es[i + 1]);
        }
        lemma_parse_entries_bytes(rest);
        lemma_u32_le(e.0.len() as u32);
        lemma_u32_le(e.1.len() as u32);
        let b = entries_bytes(es);
        let klen = e.0.len() as int;
        let vlen = e.1.len() as int;
        assert(b == entry_bytes(e) + entries_bytes(rest));
        assert(b.subrange(0, 4) =~= spec_u32_to_le_bytes(e.0.len() as u32));
        assert(b.subrange(4, 8) =~= spec_u32_to_le_bytes(e.1.len() as u32));
        assert(b.subrange(8, 8 + klen) =~= e.0);
        assert(b.subrange(8 + klen, 8 + klen + vlen) =~= e.1);
        assert(b.subrange(8 + klen + vlen, b.len() as int) =~= entries_bytes(rest));
        assert(seq![e] + rest =~= es);
    }
}

/// Decoding the encoding of a page gives the page back, provided the page's
/// encoding is short enough for its 32-bit counts and lengths.
pub proof fn lemma_decode_encode(p: PageView)
    requires
        p.encoded_len() <= u32::MAX,
    ensures
        decode(encode(p)) == Some(p),
{
    let b = encode(p);
    let nh = p.hashes.len() as int;
    let id: u64 = match p.overflow_id {
        Some(id) => id,
        None => 0,
    };
    lemma_entries_bytes_len(p.entries);
    lemma_u32_le(p.hashes.len() as u32);
    lemma_u32_le(p.entries.len() as u32);
    lemma_u64_le(id);
    assert(b.subrange(0, 4) =~= spec_u32_to_le_bytes(p.hashes.len() as u32));
    assert(b.subrange(4, 8) =~= spec_u32_to_le_bytes(p.entries.len() as u32));
    assert(b.subrange(9, 17) =~= spec_u64_to_le_bytes(id));
    assert(b.subrange(17 + 4 * nh, b.len() as int) =~= entries_bytes(p.entries));
    assert forall|i: int| 0 <= i < p.entries.len() implies (#[trigger] p.entries[i]).0.len()
        <= u32::MAX && p.entries[i].1.len() <= u32::MAX by {
        assert(entry_len(p.entries[i]) <= entries_len(p.entries));
    }
    lemma_parse_entries_bytes(p.entries);
    let hs = Seq::new(
        nh as nat,
        |i: int| spec_u32_from_le_bytes(b.subrange(17 + 4 * i, 21 + 4 * i)),
    );
    assert forall|i: int| 0 <= i < nh implies hs[i] == p.hashes[i] by {
        lemma_u32_le(p.hashes[i]);
        assert(b.subrange(17 + 4 * i, 21 + 4 * i) =~= spec_u32_to_le_bytes(p.hashes[i])) by {
            assert forall|j: int| 0 <= j < 4 implies b[17 + 4 * i + j] == spec_u32_to_le_bytes(
                p.hashes[i],
            )[j] by {
                assert((4 * i + j) / 4 == i);
                assert((4 * i + j) % 4 == j);
                assert(b[17 + 4 * i + j] == hashes_bytes(p.hashes)[4 * i + j]);
            }
        }
    }
    assert(hs =~= p.hashes);
}

/// In a page whose digests are in order, looking a key up finds the value of
/// an entry with that key exactly when there is one.
pub proof fn lemma_lookup_wf(p: PageView, key: Seq<u8>, from: int)
    requires
        p.wf(),
        0 <= from <= p.entries.len(),
    ensures
        lookup_from(p, key, from) matches Some(v) ==> exists|i: int|
            from <= i < p.entries.len() && #[trigger] p.entries[i] == (key, v),
        lookup_from(p, key, from) is None ==> forall|i: int|
            from <= i < p.entries.len() ==> (#[trigger] p.entries[i]).0 != key,
    decreases p.entries.len() - from,
{
    if from < p.entries.len() {
        if p.hashes[from] == xxh32_of(key, DIGEST_SEED) && p.entries[from].0 == key {
            assert(p.entries[from] == (key, p.entries[from].1));
        } else {
            lemma_lookup_wf(p, key, from + 1);
        }
    }
}

/// A page keeps its encoded length when its link changes, and grows by the
/// entry and its digest when an entry is appended.
pub proof fn lemma_page_len_steps(p: PageView, key: Seq<u8>, value: Seq<u8>, link: Option<u64>)
    ensures
        p.with_overflow(link).encoded_len() == p.encoded_len(),
        p.push(key, value).encoded_len() == p.encoded_len() + 12 + key.len() + value.len(),
        p.wf() ==> p.push(key, value).wf() && p.with_overflow(link).wf(),
{
    lemma_entries_push(p.entries, (key, value));
    if p.wf() {
        let q = p.push(key, value);
        assert forall|i: int| 0 <= i < q.entries.len() implies #[trigger] q.hashes[i]
            == crate::digest::xxh32_of(q.entries[i].0, crate::page::DIGEST_SEED) by {
            if i < p.entries.len() {
                assert(q.hashes[i] == p.hashes[i]);
                assert(q.entries[i] == p.entries[i]);
            }
        }
    }
}

/// Encodes a page.
pub fn encode_page(page: &Page) -> (buf: Vec<u8>)
    requires
        page@.encoded_len() <= u32::MAX,
    ensures
        buf@ == encode(page@),
{
    let ghost p = page@;
    proof {
        lemma_entries_bytes_len(p.entries);
    }
    let mut out: Vec<u8> = Vec::new();
    put_u32(&mut out, page.hashes.len() as u32);
    put_u32(&mut out, page.kv_pairs.len() as u32);
    out.push(if page.overflow_id.is_some() { 1u8 } else { 0u8 });
    put_u64(
        &mut out,
        match page.overflow_id {
            Some(id) => id,
            None => 0,
        },
    );
    let ghost head = out@;
    let nh = page.hashes.len();
    let mut i: usize = 0;
    while i < nh
        invariant
            i <= nh,
            nh == page.hashes@.len(),
            out@ == head + hashes_bytes(page.hashes@.take(i as int)),
        decreases nh - i,
    {
        put_u32(&mut out, page.hashes[i]);
        proof {
            lemma_u32_le(page.hashes[i as int]);
            let a = hashes_bytes(page.hashes@.take(i as int));
            let c = hashes_bytes(page.hashes@.take(i + 1));
            let w = spec_u32_to_le_bytes(page.hashes[i as int]);
            assert(c =~= a + w) by {
                assert forall|k: int| 0 <= k < c.len() implies c[k] == (a + w)[k] by {
                    if k >= 4 * i {
                        assert(k / 4 == i);
                        assert(k % 4 == k - 4 * i);
                    }
                }
            }
            assert(out@ =~= head + c);
        }
        i += 1;
    }
    assert(page.hashes@.take(nh as int) =~= page.hashes@);
    let ghost mid = out@;
    let ne = page.kv_pairs.len();
    let mut j: usize = 0;
    while j < ne
        invariant
            j <= ne,
            ne == page.kv_pairs@.len(),
            p == page@,
            p.encoded_len() <= u32::MAX,
            forall|i: int| 0 <= i < p.entries.len() ==> entry_len(#[trigger] p.entries[i]) <= entries_len(p.entries),
            out@ == mid + entries_bytes(p.entries.take(j as int)),
        decreases ne - j,
    {
        let key = &page.kv_pairs[j].0;
        let value = &page.kv_pairs[j].1;
        proof {
            assert(p.entries[j as int] == (key@, value@));
            assert(entry_len(p.entries[j as int]) <= entries_len(p.entries));
            lemma_entries_push(p.entries.take(j as int), p.entries[j as int]);
            assert(p.entries.take(j + 1) =~= p.entries.take(j as int).push(p.entries[j as int]));
        }
        let ghost before = out@;
        put_u32(&mut out, key.len() as u32);
        put_u32(&mut out, value.len() as u32);
        put_bytes(&mut out, key.as_slice());
        put_bytes(&mut out, value.as_slice());
        assert(out@ =~= before + entry_bytes(p.entries[j as int]));
        assert(out@ =~= mid + entries_bytes(p.entries.take(j + 1)));
        j += 1;
    }
    assert(p.entries.take(ne as int) =~= p.entries);
    assert(out@ =~= encode(p));
    out
}

/// Decodes a page. Fails with [`Error::Malformed`] exactly when the bytes
/// are not the encoding of a page.
pub fn decode_page(buf: &[u8]) -> (r: Result<Page>)
    ensures
        match decode(buf@) {
            Some(p) => r matches Ok(page) && page@ == p,
            None => r == Err::<Page, Error>(Error::Malformed),
        },
{
    let len = buf.len();
    if len < PAGE_HEADER_LEN {
        return Err(Error::Malformed);
    }
    let nh = get_u32(buf, 0) as usize;
    let ne = get_u32(buf, 4) as usize;
    let flag = buf[8];
    if flag > 1 {
        return Err(Error::Malformed);
    }
    if (len - PAGE_HEADER_LEN) / 4 < nh {
        return Err(Error::Malformed);
    }
    let overflow_id = if flag == 1 { Some(get_u64(buf, 9)) } else { None };
    let mut hashes: Vec<u32> = Vec::new();
    let mut i: usize = 0;
    while i < nh
        invariant
            i <= nh,
            17 + 4 * nh <= len,
            len == buf@.len(),
            hashes@ == Seq::new(
                i as nat,
                |k: int| spec_u32_from_le_bytes(buf@.subrange(17 + 4 * k, 21 + 4 * k)),
            ),
        decreases nh - i,
    {
        let h = get_u32(buf, 17 + 4 * i);
        hashes.push(h);
        i += 1;
        assert(hashes@ =~= Seq::new(
            i as nat,
            |k: int| spec_u32_from_le_bytes(buf@.subrange(17 + 4 * k, 21 + 4 * k)),
        ));
    }
    let start = PAGE_HEADER_LEN + 4 * nh;
    let ghost whole = parse_entries(buf@.subrange(start as int, len as int), ne as nat);
    let ghost decoded = match whole {
        Some(es) => Some(PageView { hashes: hashes@, entries: es, overflow_id }),
        None => None,
    };
    assert(decode(buf@) == decoded);
    let mut kv_pairs: Vec<(Vec<u8>, Vec<u8>)> = Vec::new();
    let mut pos = start;
    let mut j: usize = 0;
    while j < ne
        invariant
            j <= ne,
            start <= pos <= len,
            len == buf@.len(),
            kv_pairs@.len() == j,
            decode(buf@) == decoded,
            decoded == (match whole {
                Some(es) => Some((PageView { hashes: hashes@, entries: es, overflow_id })),
                None => None,
            }),
            whole == (match parse_entries(buf@.subrange(pos as int, len as int), (ne - j) as nat) {
                Some(rest) => Some(entries_view(kv_pairs@) + rest),
                None => None,
            }),
        decreases ne - j,
    {
        let ghost sub = buf@.subrange(pos as int, len as int);
        if len - pos < 8 {
            return Err(Error::Malformed);
        }
        let klen = get_u32(buf, pos) as usize;
        let vlen = get_u32(buf, pos + 4) as usize;
        proof {
            assert(sub.subrange(0, 4) =~= buf@.subrange(pos as int, pos + 4));
            assert(sub.subrange(4, 8) =~= buf@.subrange(pos + 4, pos + 8));
        }
        let room = len - pos - 8;
        if room < klen || room - klen < vlen {
            return Err(Error::Malformed);
        }
        let key = slice_to_vec(slice_subrange(buf, pos + 8, pos + 8 + klen));
        let value = slice_to_vec(slice_subrange(buf, pos + 8 + klen, pos + 8 + klen + vlen));
        proof {
            let next = pos + 8 + klen + vlen;
            assert(sub.subrange(8, 8 + klen) =~= key@);
            assert(sub.subrange(8 + klen, 8 + klen + vlen) =~= value@);
            assert(sub.subrange(8 + klen + vlen, sub.len() as int) =~= buf@.subrange(
                next,
                len as int,
            ));
            let ghost_rest = parse_entries(buf@.subrange(next, len as int), (ne - j - 1) as nat);
            if ghost_rest is Some {
                let before = entries_view(kv_pairs@);
                let after = entries_view(kv_pairs@.push((key, value)));
                assert(before + (seq![(key@, value@)] + ghost_rest->0) =~= after + ghost_rest->0);
            }
        }
        kv_pairs.push((key, value));
        pos = pos + 8 + klen + vlen;
        j += 1;
    }
    if pos != len {
        return Err(Error::Malformed);
    }
    proof {
        assert(buf@.subrange(pos as int, len as int).len() == 0);
        assert(entries_view(kv_pairs@) + Seq::<(Seq<u8>, Seq<u8>)>::empty() =~= entries_view(
            kv_pairs@,
        ));
    }
    Ok(Page { hashes, kv_pairs, overflow_id })
}

impl Page {
    /// A page without entries and without a link.
    pub fn new() -> (page: Page)
        ensures
            page@ == PageView::empty(),
            page@.encoded_len() == 17,
    {
        let page = Page { hashes: Vec::new(), kv_pairs: Vec::new(), overflow_id: None };
        assert(page@.entries =~= Seq::empty());
        page
    }

    /// The number of key-value pairs in the page.
    pub fn len(&self) -> (n: usize)
        ensures
            n == self@.entries.len(),
    {
        self.kv_pairs.len()
    }

    /// Appends an entry and the digest of its key.
    pub fn push(&mut self, key: Vec<u8>, value: Vec<u8>)
        ensures
            final(self)@ == old(self)@.push(key@, value@),
            final(self)@.encoded_len() == old(self)@.encoded_len() + 12 + key@.len() + value@.len(),
            old(self)@.wf() ==> final(self)@.wf(),
    {
        proof {
            lemma_page_len_steps(self@, key@, value@, None);
        }
        self.hashes.push(xxhash_rust::xxh32::xxh32(key.as_slice(), DIGEST_SEED));
        self.kv_pairs.push((key, value));
        assert(self@.entries =~= old(self)@.entries.push((key@, value@)));
    }

    /// Whether the page holds an entry for `key`: one whose digest and key
    /// both match.
    pub fn contains_key(&self, key: &[u8]) -> (found: bool)
        ensures
            found == self@.lookup(key@).is_some(),
    {
        self.get(key).is_some()
    }

    /// The value of the first entry whose digest and key both match `key`.
    pub fn get(&self, key: &[u8]) -> (r: Option<&Vec<u8>>)
        ensures
            match self@.lookup(key@) {
                Some(v) => r matches Some(value) && value@ == v,
                None => r is None,
            },
    {
        let h2 = xxhash_rust::xxh32::xxh32(key, DIGEST_SEED);
        let n = if self.hashes.len() < self.kv_pairs.len() {
            self.hashes.len()
        } else {
            self.kv_pairs.len()
        };
        let mut i: usize = 0;
        while i < n
            invariant
                i <= n,
                n <= self.hashes@.len(),
                n <= self.kv_pairs@.len(),
                n == self.hashes@.len() || n == self.kv_pairs@.len(),
                h2 == xxh32_of(key@, DIGEST_SEED),
                self@.lookup(key@) == lookup_from(self@, key@, i as int),
            decreases n - i,
        {
            if self.hashes[i] == h2 {
                if bytes_eq(self.kv_pairs[i].0.as_slice(), key) {
                    return Some(&self.kv_pairs[i].1);
                }
            }
            i += 1;
        }
        None
    }

    /// The length of the page's encoding, or `None` where it exceeds what a
    /// `usize` can count.
    pub fn encoded_len(&self) -> (n: Option<usize>)
        ensures
            match n {
                Some(n) => n == self@.encoded_len(),
                None => self@.encoded_len() > usize::MAX,
            },
    {
        let ghost p = self@;
        let nh = self.hashes.len();
        if nh > (usize::MAX - PAGE_HEADER_LEN) / 4 {
            return None;
        }
        let mut total: usize = PAGE_HEADER_LEN + 4 * nh;
        let ne = self.kv_pairs.len();
        let mut j: usize = 0;
        while j < ne
            invariant
                j <= ne,
                ne == self.kv_pairs@.len(),
                p == self@,
                total == 17 + 4 * p.hashes.len() + entries_len(p.entries.take(j as int)),
            decreases ne - j,
        {
            let klen = self.kv_pairs[j].0.len();
            let vlen = self.kv_pairs[j].1.len();
            proof {
                let e = p.entries[j as int];
                assert(e == (self.kv_pairs@[j as int].0@, self.kv_pairs@[j as int].1@));
                lemma_entries_push(p.entries.take(j as int), e);
                assert(p.entries.take(j + 1) =~= p.entries.take(j as int).push(e));
                lemma_entries_len_take(p.entries, j + 1);
            }
            if klen > usize::MAX - 8 || vlen > usize::MAX - 8 - klen || total > usize::MAX - 8
                - klen - vlen {
                return None;
            }
            total = total + 8 + klen + vlen;
            j += 1;
        }
        assert(p.entries.take(ne as int) =~= p.entries);
        Some(total)
    }
}

/// A borrowed view of one validated page inside a frame buffer. Lookups scan
/// the encoded bytes in place and copy nothing.
pub struct PageRef {
    pub buf: Vec<u8>,
    pub data_range: Range<usize>,
}

impl View for PageRef {
    type V = PageView;

    /// The page that the viewed bytes encode.
    open spec fn view(&self) -> PageView {
        decode(self.spec_data())->0
    }
}

impl PageRef {
    /// The viewed bytes: the frame's payload.
    pub open spec fn spec_data(&self) -> Seq<u8> {
        self.buf@.subrange(self.data_range.start as int, self.data_range.end as int)
    }

    /// The range lies inside the buffer and the bytes in it encode a page.
    pub open spec fn wf(&self) -> bool {
        &&& self.data_range.start <= self.data_range.end <= self.buf@.len()
        &&& decode(self.spec_data()) is Some
    }

    /// The viewed bytes.
    pub fn data(&self) -> (d: &[u8])
        requires
            self.data_range.start <= self.data_range.end <= self.buf@.len(),
        ensures
            d@ == self.spec_data(),
    {
        slice_subrange(self.buf.as_slice(), self.data_range.start, self.data_range.end)
    }

    /// The value of the first entry whose digest and key both match `key`,
    /// as the decoded page would give it, borrowed from the buffer.
    pub fn get_value(&self, key: &[u8]) -> (r: Option<&[u8]>)
        requires
            self.wf(),
        ensures
            match self@.lookup(key@) {
                Some(v) => r matches Some(value) && value@ == v,
                None => r is None,
            },
    {
        let d = self.data();
        let ghost p = self@;
        let len = d.len();
        let nh = get_u32(d, 0) as usize;
        let ne = get_u32(d, 4) as usize;
        let h2 = xxhash_rust::xxh32::xxh32(key, DIGEST_SEED);
        let start = 17 + 4 * nh;
        proof {
            lemma_parse_entries_len(d@.subrange(start as int, len as int), ne as nat);
            assert(p.entries.skip(0) =~= p.entries);
        }
        let n = if nh < ne { nh } else { ne };
        let mut pos = start;
        let mut i: usize = 0;
        while i < n
            invariant
                i <= n,
                n <= nh,
                n <= ne,
                n == nh || n == ne,
                start <= pos <= len,
                len == d@.len(),
                17 + 4 * nh <= len,
                p == self@,
                nh == p.hashes.len(),
                ne == p.entries.len(),
                h2 == xxh32_of(key@, DIGEST_SEED),
                forall|k: int|
                    0 <= k < nh ==> #[trigger] p.hashes[k] == spec_u32_from_le_bytes(
                        d@.subrange(17 + 4 * k, 21 + 4 * k),
                    ),
                parse_entries(d@.subrange(pos as int, len as int), (ne - i) as nat) == Some(
                    p.entries.skip(i as int),
                ),
                p.lookup(key@) == lookup_from(p, key@, i as int),
            decreases n - i,
        {
            let ghost sub = d@.subrange(pos as int, len as int);
            let klen = get_u32(d, pos) as usize;
            let vlen = get_u32(d, pos + 4) as usize;
            proof {
                assert(sub.subrange(0, 4) =~= d@.subrange(pos as int, pos + 4));
                assert(sub.subrange(4, 8) =~= d@.subrange(pos + 4, pos + 8));
                let next = pos + 8 + klen + vlen;
                assert(sub.subrange(8, 8 + klen) =~= d@.subrange(pos + 8, pos + 8 + klen));
                assert(sub.subrange(8 + klen, 8 + klen + vlen) =~= d@.subrange(
                    pos + 8 + klen,
                    next,
                ));
                assert(sub.subrange(8 + klen + vlen, sub.len() as int) =~= d@.subrange(
                    next,
                    len as int,
                ));
                let rest = parse_entries(d@.subrange(next, len as int), (ne - i - 1) as nat)->0;
                let e = (sub.subrange(8, 8 + klen), sub.subrange(8 + klen, 8 + klen + vlen));
                let s = p.entries.skip(i as int);
                assert(s == seq![e] + rest);
                assert(p.entries[i as int] == s[0]);
                assert forall|k: int| 0 <= k < rest.len() implies rest[k] == p.entries.skip(
                    i + 1,
                )[k] by {
                    assert(s[k + 1] == rest[k]);
                }
                assert(rest.len() + 1 == s.len());
                assert(rest =~= p.entries.skip(i + 1));
                assert(p.hashes[i as int] == spec_u32_from_le_bytes(
                    d@.subrange(17 + 4 * i, 21 + 4 * i),
                ));
                assert(p.entries[i as int] == e);
            }
            if get_u32(d, 17 + 4 * i) == h2 {
                if bytes_eq(slice_subrange(d, pos + 8, pos + 8 + klen), key) {
                    return Some(slice_subrange(d, pos + 8 + klen, pos + 8 + klen + vlen));
                }
            }
            pos = pos + 8 + klen + vlen;
            i += 1;
        }
        None
    }

    /// The link to the next page of the chain, as the decoded page would
    /// give it.
    pub fn overflow_id(&self) -> (r: Option<u64>)
        requires
            self.wf(),
        ensures
            r == self@.overflow_id,
    {
        let d = self.data();
        if d[8] == 1 {
            Some(get_u64(d, 9))
        } else {
            None
        }
    }
}

} // verus!
