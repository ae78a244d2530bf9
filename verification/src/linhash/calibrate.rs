//! Calibration of the page capacity: how many entries of the first key and
//! value sizes a page may hold.

use vstd::prelude::*;
use crate::le::filled;
use crate::page::{entries_len, Page, PageView};

verus! {

/// The encoded length of a page of `count` entries whose keys are all
/// `ksize` and whose values are all `vsize` bytes long.
pub open spec fn fixed_page_len(count: nat, ksize: nat, vsize: nat) -> nat {
    17 + count * (12 + ksize + vsize)
}

/// The number of entries of the given sizes that a page may hold: the
/// largest count, up to 255, whose page fits the 4088 bytes of a frame's
/// payload.
pub open spec fn spec_max_kv_per_page(ksize: nat, vsize: nat) -> nat {
    let m: int = 4071int / ((12 + ksize + vsize) as int);
    if m > 255 {
        255
    } else {
        m as nat
    }
}

/// Every entry of the page has its digest, every key is `ksize` and every
/// value `vsize` bytes long.
pub open spec fn uniform(p: PageView, ksize: nat, vsize: nat) -> bool {
    &&& p.hashes.len() == p.entries.len()
    &&& forall|i: int|
        0 <= i < p.entries.len() ==> (#[trigger] p.entries[i]).0.len() == ksize
            && p.entries[i].1.len() == vsize
}

/// A run of entries of fixed sizes is as long as their number times the
/// length of one.
pub proof fn lemma_fixed_entries_len(es: Seq<(Seq<u8>, Seq<u8>)>, ksize: nat, vsize: nat)
    requires
        forall|i: int|
            0 <= i < es.len() ==> (#[trigger] es[i]).0.len() == ksize && es[i].1.len() == vsize,
    ensures
        entries_len(es) == es.len() * (8 + ksize + vsize),
    decreases es.len(),
{
    if es.len() > 0 {
        let rest = es.drop_first();
        assert forall|i: int| 0 <= i < rest.len() implies (#[trigger] rest[i]).0.len() == ksize
            && rest[i].1.len() == vsize by {
            assert(rest[i] == es[i + 1]);
        }
        lemma_fixed_entries_len(rest, ksize, vsize);
        let s = (8 + ksize + vsize) as int;
        let n = rest.len() as int;
        assert((n + 1) * s == n * s + s) by (nonlinear_arith);
    } else {
        assert(0 * (8 + ksize + vsize) == 0);
    }
}

/// A page of entries of fixed sizes has the encoded length that
/// `fixed_page_len` gives for their number.
pub proof fn lemma_fixed_page_len(p: PageView, ksize: nat, vsize: nat)
    requires
        uniform(p, ksize, vsize),
    ensures
        p.encoded_len() == fixed_page_len(p.entries.len(), ksize, vsize),
{
    lemma_fixed_entries_len(p.entries, ksize, vsize);
    let n = p.entries.len() as int;
    let s = (8 + ksize + vsize) as int;
    assert(n * (s + 4) == n * s + 4 * n) by (nonlinear_arith);
}

/// The page capacity for entries of the given sizes is exact: a page of that
/// many entries fits a frame, and, unless the capacity is the cap of 255, a
/// page of one more does not.
pub proof fn lemma_max_kv_per_page(ksize: nat, vsize: nat)
    ensures
        fixed_page_len(spec_max_kv_per_page(ksize, vsize), ksize, vsize) <= 4088,
        spec_max_kv_per_page(ksize, vsize) < 255 ==> fixed_page_len(
            spec_max_kv_per_page(ksize, vsize) + 1,
            ksize,
            vsize,
        ) > 4088,
        spec_max_kv_per_page(ksize, vsize) <= 255,
        fixed_page_len(2, ksize, vsize) <= 4088 ==> spec_max_kv_per_page(ksize, vsize) >= 2,
{
    let s = (12 + ksize + vsize) as int;
    let q: int = 4071int / s;
    assert(q * s <= 4071 < (q + 1) * s && q >= 0) by (nonlinear_arith)
        requires
            q == 4071int / s,
            s >= 12,
    ;
    let m = spec_max_kv_per_page(ksize, vsize) as int;
    assert(m * s <= q * s) by (nonlinear_arith)
        requires
            0 <= m <= q,
            s >= 12,
    ;
    if 2 * s <= 4071 {
        assert(q >= 2) by (nonlinear_arith)
            requires
                2 * s <= 4071,
                4071 < (q + 1) * s,
                s >= 12,
        ;
    }
}

/// Under the calibrated capacity a page of entries of the calibrated sizes
/// always has room for one more: a page that holds fewer such entries than
/// the capacity still fits its frame when another is appended.
pub proof fn lemma_uniform_fits(
    p: PageView,
    ksize: nat,
    vsize: nat,
    key: Seq<u8>,
    value: Seq<u8>,
)
    requires
        uniform(p, ksize, vsize),
        p.entries.len() < spec_max_kv_per_page(ksize, vsize),
        key.len() == ksize,
        value.len() == vsize,
    ensures
        uniform(p.push(key, value), ksize, vsize),
        p.push(key, value).encoded_len() <= 4088,
{
    let q = p.push(key, value);
    assert forall|i: int| 0 <= i < q.entries.len() implies (#[trigger] q.entries[i]).0.len()
        == ksize && q.entries[i].1.len() == vsize by {
        if i < p.entries.len() {
            assert(q.entries[i] == p.entries[i]);
        }
    }
    lemma_fixed_page_len(q, ksize, vsize);
    lemma_max_kv_per_page(ksize, vsize);
    let m = spec_max_kv_per_page(ksize, vsize) as int;
    let n = q.entries.len() as int;
    let s = (12 + ksize + vsize) as int;
    assert(n * s <= m * s) by (nonlinear_arith)
        requires
            0 <= n <= m,
            s >= 0,
    ;
}

/// Calibrates the page capacity for keys of `ksize` and values of `vsize`
/// bytes, by building pages of synthetic entries of these sizes, one entry
/// more each time, until the encoding exceeds a frame's payload; the
/// capacity is the last count that fit, at most 255.
pub fn calc_max_kv_per_page(ksize: usize, vsize: usize) -> (m: u8)
    requires
        fixed_page_len(2, ksize as nat, vsize as nat) <= 4088,
    ensures
        m == spec_max_kv_per_page(ksize as nat, vsize as nat),
        m >= 2,
        fixed_page_len(m as nat, ksize as nat, vsize as nat) <= 4088,
        m < 255 ==> fixed_page_len((m + 1) as nat, ksize as nat, vsize as nat) > 4088,
{
    let ghost k = ksize as nat;
    let ghost v = vsize as nat;
    let ghost s = (12 + k + v) as int;
    proof {
        lemma_max_kv_per_page(k, v);
    }
    let mut page = Page { hashes: Vec::new(), kv_pairs: Vec::new(), overflow_id: Some(1) };
    assert(page@.entries =~= Seq::empty());
    let mut i: u8 = 0;
    loop
        invariant
            k == ksize,
            v == vsize,
            s == 12 + k + v,
            2 * s <= 4071,
            page@.entries.len() == i,
            uniform(page@, k, v),
            i > 0 ==> fixed_page_len((i - 1) as nat, k, v) <= 4088,
        decreases 255 - i,
    {
        proof {
            lemma_fixed_page_len(page@, k, v);
        }
        let too_long = match page.encoded_len() {
            Some(n) => n > 4088,
            None => true,
        };
        if too_long {
            proof {
                let q: int = 4071int / s;
                assert(i > 2) by (nonlinear_arith)
                    requires
                        i * s > 4071,
                        2 * s <= 4071,
                        s >= 12,
                        i >= 0,
                ;
                assert(q == i - 1) by (nonlinear_arith)
                    requires
                        q == 4071int / s,
                        (i - 1) * s <= 4071 < i * s,
                        s >= 12,
                ;
            }
            return i - 1;
        }
        if i == 255 {
            proof {
                let q: int = 4071int / s;
                assert(q >= 255) by (nonlinear_arith)
                    requires
                        q == 4071int / s,
                        255 * s <= 4071,
                        s >= 12,
                ;
            }
            return 255;
        }
        let ghost before = page@;
        page.push(filled(i, ksize), filled(i, vsize));
        i += 1;
        proof {
            assert forall|x: int| 0 <= x < page@.entries.len() implies (
            #[trigger] page@.entries[x]).0.len() == k && page@.entries[x].1.len() == v by {
                if x < before.entries.len() {
                    assert(page@.entries[x] == before.entries[x]);
                }
            }
        }
    }
}

} // verus!
