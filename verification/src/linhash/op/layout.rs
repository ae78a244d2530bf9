//! How a split lays the entries of a bucket out anew: which stay and which
//! move, how they fill pages, and which overflow pages take them.

use vstd::prelude::*;
use crate::device::Device;
use crate::digest::xxh32_of;
use crate::error::{Error, Result};
use crate::linhash::addr::{dest_of, spec_hash};
use crate::linhash::table::{page_at, Table};
use crate::page::{Page, PageView, DIGEST_SEED};

verus! {

/// The views of a run of pages.
pub open spec fn page_views(pages: Seq<Page>) -> Seq<PageView> {
    Seq::new(pages.len(), |c: int| pages[c]@)
}

/// Whether one of the pages holds the entry `e`.
pub open spec fn in_pages(ps: Seq<PageView>, e: (Seq<u8>, Seq<u8>)) -> bool {
    exists|c: int| 0 <= c < ps.len() && (#[trigger] ps[c]).entries.contains(e)
}

/// Whether no id occurs twice in `ids`.
pub open spec fn distinct(ids: Seq<u64>) -> bool {
    forall|x: int, y: int| 0 <= x < ids.len() && 0 <= y < ids.len() && x != y ==> ids[x] != ids[y]
}

/// An element is in a concatenation exactly when it is in one of the parts.
pub proof fn lemma_concat_contains<T>(a: Seq<T>, b: Seq<T>, e: T)
    ensures
        (a + b).contains(e) <==> a.contains(e) || b.contains(e),
{
    if a.contains(e) {
        let i = choose|i: int| 0 <= i < a.len() && a[i] == e;
        assert((a + b)[i] == e);
    }
    if b.contains(e) {
        let i = choose|i: int| 0 <= i < b.len() && b[i] == e;
        assert((a + b)[a.len() + i] == e);
    }
    if (a + b).contains(e) {
        let i = choose|i: int| 0 <= i < (a + b).len() && (a + b)[i] == e;
        if i < a.len() {
            assert(a[i] == e);
        } else {
            assert(b[i - a.len()] == e);
        }
    }
}

/// An element is in a sequence with one more element exactly when it is in
/// the sequence or is that element.
pub proof fn lemma_push_contains<T>(a: Seq<T>, x: T, e: T)
    ensures
        a.push(x).contains(e) <==> a.contains(e) || e == x,
{
    lemma_concat_contains(a, seq![x], e);
    assert(a.push(x) =~= a + seq![x]);
    if e == x {
        assert(seq![x][0] == e);
    }
}

/// The entries of the first `n` pages of bucket `b`'s chain, in chain order.
pub open spec fn chain_entries(main: Device, overflow: Device, t: Table, b: int, n: int) -> Seq<
    (Seq<u8>, Seq<u8>),
>
    decreases n,
{
    if n <= 0 {
        Seq::empty()
    } else {
        chain_entries(main, overflow, t, b, n - 1) + page_at(main, overflow, t, b, n - 1).entries
    }
}

/// The entries that a split keeps in the bucket at `split` (`stay`), or
/// those that it moves to the sibling (`!stay`), in their order.
pub open spec fn kept(es: Seq<(Seq<u8>, Seq<u8>)>, level: u64, split: u64, stay: bool) -> Seq<
    (Seq<u8>, Seq<u8>),
>
    decreases es.len(),
{
    if es.len() == 0 {
        es
    } else {
        let rest = kept(es.drop_last(), level, split, stay);
        if (dest_of(spec_hash(es.last().0), level) == split) == stay {
            rest.push(es.last())
        } else {
            rest
        }
    }
}

/// A run of entries cut into runs of `cap`, the last of them shorter where
/// the entries do not fill it; no entries give one empty run.
pub open spec fn chunks(es: Seq<(Seq<u8>, Seq<u8>)>, cap: int) -> Seq<Seq<(Seq<u8>, Seq<u8>)>>
    decreases es.len(),
{
    if cap <= 0 || es.len() <= cap {
        seq![es]
    } else {
        seq![es.take(cap)] + chunks(es.skip(cap), cap)
    }
}

/// Cutting a run of entries gives at least one run.
pub proof fn lemma_chunks_len(es: Seq<(Seq<u8>, Seq<u8>)>, cap: int)
    ensures
        chunks(es, cap).len() >= 1,
    decreases es.len(),
{
    if cap > 0 && es.len() > cap {
        lemma_chunks_len(es.skip(cap), cap);
    }
}

/// The page that holds `entries`, with the digests of their keys, and
/// links to `link`.
pub open spec fn page_of(entries: Seq<(Seq<u8>, Seq<u8>)>, link: Option<u64>) -> PageView {
    PageView {
        hashes: Seq::new(entries.len(), |i: int| xxh32_of(entries[i].0, DIGEST_SEED)),
        entries,
        overflow_id: link,
    }
}

/// The id the `n`-th overflow page of the rebuilt chains receives: the ids of
/// the old chain first, then fresh ids counting up from `next`.
pub open spec fn id_at(pool: Seq<u64>, next: u64, n: int) -> int {
    if n < pool.len() {
        pool[n] as int
    } else {
        next + (n - pool.len())
    }
}

/// Whether the `n`-th id that rebuilt chains draw names a frame in the
/// addressable range.
pub open spec fn drawable(pool: Seq<u64>, next: u64, n: int) -> bool {
    id_at(pool, next, n) <= u64::MAX && Device::in_range(id_at(pool, next, n) as u64)
}

/// Whether `count` ids from the `from`-th on can be drawn.
pub open spec fn all_drawable(pool: Seq<u64>, next: u64, from: int, count: int) -> bool {
    forall|x: int| from <= x < from + count ==> #[trigger] drawable(pool, next, x)
}

/// The `count` ids from the `from`-th on.
pub open spec fn drawn(pool: Seq<u64>, next: u64, from: int, count: int) -> Seq<u64> {
    Seq::new(count as nat, |x: int| id_at(pool, next, from + x) as u64)
}

/// The ids that rebuilt chains draw, `n` of them, are pairwise different,
/// and each is an id of the old chain or a fresh one.
pub proof fn lemma_ids_drawn(pool: Seq<u64>, next: u64, ids: Seq<u64>)
    requires
        distinct(pool),
        forall|x: int| 0 <= x < pool.len() ==> #[trigger] pool[x] < next,
        forall|x: int| 0 <= x < ids.len() ==> #[trigger] ids[x] == id_at(pool, next, x),
    ensures
        distinct(ids),
        forall|x: int|
            0 <= x < ids.len() ==> pool.contains(#[trigger] ids[x]) || (next <= ids[x] && ids[x]
                < next + ids.len() - pool.len()),
{
    assert forall|x: int| 0 <= x < ids.len() implies pool.contains(#[trigger] ids[x]) || (next
        <= ids[x] && ids[x] < next + ids.len() - pool.len()) by {
        if x < pool.len() {
            assert(pool[x] == ids[x]);
        }
    }
}

/// The pages of the chain that holds `es`, `cap` entries to a page, its
/// overflow pages drawing their ids from the `used`-th on.
pub open spec fn laid_out(
    es: Seq<(Seq<u8>, Seq<u8>)>,
    cap: int,
    pool: Seq<u64>,
    next: u64,
    used: int,
) -> Seq<PageView> {
    let cs = chunks(es, cap);
    Seq::new(
        cs.len(),
        |c: int|
            page_of(
                cs[c],
                if c + 1 < cs.len() {
                    Some(id_at(pool, next, used + c) as u64)
                } else {
                    None
                },
            ),
    )
}

/// Whether every page fits a frame.
pub open spec fn pages_fit(ps: Seq<PageView>) -> bool {
    forall|c: int| 0 <= c < ps.len() ==> (#[trigger] ps[c]).encoded_len() <= 4088
}

/// How a split of the bucket at the split pointer ends, pages of `cap`
/// entries being laid out: well, or with [`Error::IO`] where the sibling's
/// main page or an overflow page that the new chains need lies outside the
/// addressable range, or else with [`Error::PageTooLarge`] where a page of
/// the new chains does not fit its frame.
pub open spec fn split_outcome(main: Device, overflow: Device, t: Table, cap: int) -> Result<()> {
    let s = t.split as int;
    let all = chain_entries(main, overflow, t, s, t.chain_len(s));
    let stay = kept(all, t.level, t.split, true);
    let moved = kept(all, t.level, t.split, false);
    let pool = t.chains[s];
    let n_stay = chunks(stay, cap).len() - 1;
    let n_moved = chunks(moved, cap).len() - 1;
    if !Device::in_range(t.n_buckets() as u64) || !all_drawable(pool, t.next_overflow, 0, n_stay)
        || !all_drawable(pool, t.next_overflow, n_stay, n_moved) {
        Err(Error::IO)
    } else if !pages_fit(laid_out(stay, cap, pool, t.next_overflow, 0)) || !pages_fit(
        laid_out(moved, cap, pool, t.next_overflow, n_stay),
    ) {
        Err(Error::PageTooLarge)
    } else {
        Ok(())
    }
}

} // verus!
