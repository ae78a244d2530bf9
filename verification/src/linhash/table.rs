//! The table state of an index, and what it means for the pages of two page
//! spaces to be in order under it.

use vstd::prelude::*;
use crate::device::{Device, Slot};
use crate::linhash::addr::{base_count, bucket_of, spec_hash};
use crate::page::PageView;

verus! {

/// The link that page `j` of a chain with overflow ids `ids` carries.
pub open spec fn link_of(ids: Seq<u64>, j: int) -> Option<u64> {
    if 0 <= j < ids.len() {
        Some(ids[j])
    } else {
        None
    }
}

/// The table state of an index: what addressing and the index's invariant
/// depend on besides the pages themselves.
pub struct Table {
    /// The number of low hash bits that address the base buckets.
    pub level: u64,
    /// The bucket that is split next.
    pub split: u64,
    /// The id the next overflow page receives.
    pub next_overflow: u64,
    /// For each bucket, the overflow page ids of its chain, in chain order.
    pub chains: Seq<Seq<u64>>,
    /// The key-value pairs the index holds.
    pub map: Map<Seq<u8>, Seq<u8>>,
}

impl Table {
    /// The number of buckets: the base buckets and those split off so far.
    pub open spec fn n_buckets(self) -> int {
        base_count(self.level) + self.split
    }

    /// The bucket that `key` is addressed to.
    pub open spec fn bucket_id(self, key: Seq<u8>) -> u64 {
        bucket_of(spec_hash(key), self.level, self.split)
    }

    /// The number of pages in bucket `b`'s chain: its main page and its
    /// overflow pages.
    pub open spec fn chain_len(self, b: int) -> int {
        self.chains[b].len() as int + 1
    }

    /// An entry of bucket `b` is in order: its key is long enough to be
    /// hashed and is addressed to `b`, and the map takes the key to the
    /// entry's value.
    pub open spec fn entry_ok(self, b: int, e: (Seq<u8>, Seq<u8>)) -> bool {
        &&& e.0.len() >= 8
        &&& self.bucket_id(e.0) == b
        &&& self.map.contains_key(e.0)
        &&& self.map[e.0] == e.1
    }

    /// No overflow page belongs to two chains, or twice to one.
    pub open spec fn chains_disjoint(self) -> bool {
        forall|b1: int, j1: int, b2: int, j2: int|
            0 <= b1 < self.chains.len() && 0 <= j1 < self.chains[b1].len() && 0 <= b2
                < self.chains.len() && 0 <= j2 < self.chains[b2].len() && (b1 != b2 || j1 != j2)
                ==> #[trigger] self.chains[b1][j1] != #[trigger] self.chains[b2][j2]
    }

    /// The table state is consistent in itself.
    pub open spec fn state_ok(self) -> bool {
        &&& 1 <= self.level <= 52
        &&& self.split < base_count(self.level)
        &&& Device::in_range((self.n_buckets() - 1) as u64)
        &&& self.chains.len() == self.n_buckets()
        &&& self.chains_disjoint()
        &&& self.map.dom().finite()
    }
}

/// What a reader finds where page `j` of bucket `b`'s chain lives, the
/// chain's overflow ids being `ids`.
pub open spec fn slot_at(main: Device, overflow: Device, ids: Seq<u64>, b: int, j: int) -> Slot {
    if j == 0 {
        main.slot(b as u64)
    } else {
        overflow.slot(ids[j - 1])
    }
}

/// Page `j` of bucket `b`'s chain.
pub open spec fn page_at(main: Device, overflow: Device, t: Table, b: int, j: int) -> PageView {
    slot_at(main, overflow, t.chains[b], b, j)->Page_0
}

/// Page `j` of bucket `b`'s chain is in order: it is there, links to the
/// next page of the chain, fits its frame, and holds only entries that are
/// in order.
pub open spec fn page_ok(main: Device, overflow: Device, t: Table, b: int, j: int) -> bool {
    let p = page_at(main, overflow, t, b, j);
    &&& slot_at(main, overflow, t.chains[b], b, j) is Page
    &&& j > 0 ==> t.chains[b][j - 1] < t.next_overflow
    &&& j > 0 ==> Device::in_range(t.chains[b][j - 1])
    &&& p.overflow_id == link_of(t.chains[b], j)
    &&& p.wf()
    &&& p.encoded_len() <= 4088
    &&& forall|i: int| 0 <= i < p.entries.len() ==> t.entry_ok(b, #[trigger] p.entries[i])
}

/// Every page of bucket `b`'s chain is in order.
pub open spec fn bucket_ok(main: Device, overflow: Device, t: Table, b: int) -> bool {
    forall|j: int| 0 <= j < t.chain_len(b) ==> #[trigger] page_ok(main, overflow, t, b, j)
}

/// Whether page `j` of bucket `b`'s chain holds the entry `e`.
pub open spec fn page_has(
    main: Device,
    overflow: Device,
    t: Table,
    b: int,
    j: int,
    e: (Seq<u8>, Seq<u8>),
) -> bool {
    0 <= j < t.chain_len(b) && page_at(main, overflow, t, b, j).entries.contains(e)
}

/// Whether some page of bucket `b`'s chain holds the entry `e`.
pub open spec fn bucket_has(
    main: Device,
    overflow: Device,
    t: Table,
    b: int,
    e: (Seq<u8>, Seq<u8>),
) -> bool {
    exists|j: int| #[trigger] page_has(main, overflow, t, b, j, e)
}

/// Every key of the map is stored, with its value, in the bucket it is
/// addressed to.
pub open spec fn keys_stored(main: Device, overflow: Device, t: Table) -> bool {
    forall|k: Seq<u8>| #[trigger]
        t.map.dom().contains(k) ==> bucket_has(main, overflow, t, t.bucket_id(k) as int, (k, t.map[k]))
}

/// The pages and the table state are in order together.
pub open spec fn store_ok(main: Device, overflow: Device, t: Table) -> bool {
    &&& main.wf()
    &&& overflow.wf()
    &&& t.state_ok()
    &&& forall|b: int| 0 <= b < t.n_buckets() ==> #[trigger] bucket_ok(main, overflow, t, b)
    &&& keys_stored(main, overflow, t)
}

/// In a store that is in order, an entry stored in a bucket is in order.
pub proof fn lemma_stored_entry_ok(
    main: Device,
    overflow: Device,
    t: Table,
    b: int,
    e: (Seq<u8>, Seq<u8>),
)
    requires
        store_ok(main, overflow, t),
        0 <= b < t.n_buckets(),
        bucket_has(main, overflow, t, b, e),
    ensures
        t.entry_ok(b, e),
{
    let j = choose|j: int| #[trigger] page_has(main, overflow, t, b, j, e);
    assert(bucket_ok(main, overflow, t, b));
    assert(page_ok(main, overflow, t, b, j));
    let p = page_at(main, overflow, t, b, j);
    let i = choose|i: int| 0 <= i < p.entries.len() && p.entries[i] == e;
    assert(t.entry_ok(b, p.entries[i]));
}

/// Whether every page of `t`'s chains is in the second store what it is in
/// the first, but for page `j` of bucket `b`, which is `p`.
pub open spec fn pages_same_but(
    main: Device,
    overflow: Device,
    t: Table,
    main2: Device,
    overflow2: Device,
    t2: Table,
    b: int,
    j: int,
    p: PageView,
) -> bool {
    forall|b2: int, j2: int|
        0 <= b2 < t.n_buckets() && 0 <= j2 < t.chain_len(b2) ==> #[trigger] page_at(
            main2,
            overflow2,
            t2,
            b2,
            j2,
        ) == (if b2 == b && j2 == j {
            p
        } else {
            page_at(main, overflow, t, b2, j2)
        })
}

/// A store stays in order when its two page spaces are replaced by spaces
/// with the same bytes.
pub proof fn lemma_same_images(
    main: Device,
    overflow: Device,
    t: Table,
    main2: Device,
    overflow2: Device,
)
    requires
        store_ok(main, overflow, t),
        main2.wf(),
        overflow2.wf(),
        main2.image() == main.image(),
        overflow2.image() == overflow.image(),
    ensures
        store_ok(main2, overflow2, t),
{
    assert forall|b2: int| 0 <= b2 < t.n_buckets() implies #[trigger] bucket_ok(
        main2,
        overflow2,
        t,
        b2,
    ) by {
        assert(bucket_ok(main, overflow, t, b2));
        assert forall|j2: int| 0 <= j2 < t.chain_len(b2) implies #[trigger] page_ok(
            main2,
            overflow2,
            t,
            b2,
            j2,
        ) by {
            assert(page_ok(main, overflow, t, b2, j2));
        }
    }
    assert forall|k: Seq<u8>| #[trigger] t.map.dom().contains(k) implies bucket_has(
        main2,
        overflow2,
        t,
        t.bucket_id(k) as int,
        (k, t.map[k]),
    ) by {
        let bk = t.bucket_id(k) as int;
        let e = (k, t.map[k]);
        let j0 = choose|j0: int| #[trigger] page_has(main, overflow, t, bk, j0, e);
        assert(page_has(main2, overflow2, t, bk, j0, e));
    }
}

} // verus!
