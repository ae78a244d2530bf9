//! Insertion: an append to the tail page of the key's bucket, or a new
//! overflow page where the tail page is full.

use vstd::prelude::*;
use vstd::pervasive::unreached;
use crate::device::{found, frame_bytes, Device, Slot};
use crate::error::{Error, Result};
use crate::io::{extends, is_write, lemma_extends, with_write, IoOp};
use crate::linhash::{
    bucket_has, bucket_ok, fixed_page_len, keys_stored, lemma_base_count, lemma_bucket_of_bound,
    lemma_same_images, page_at, page_has, page_ok, pages_same_but, slot_at, spec_hash, store_ok,
    LinHash, PageId, Table,
};
use crate::page::{lemma_lookup_wf, lemma_page_len_steps, Page, PageView};

verus! {

/// The table state after `key` and `value` were appended in place.
pub open spec fn table_with(t: Table, key: Seq<u8>, value: Seq<u8>) -> Table {
    Table { map: t.map.insert(key, value), ..t }
}

/// The table state after `key` and `value` went to a new overflow page at
/// the end of bucket `b`'s chain.
pub open spec fn table_with_overflow(t: Table, b: int, key: Seq<u8>, value: Seq<u8>) -> Table {
    Table {
        next_overflow: (t.next_overflow + 1) as u64,
        chains: t.chains.update(b, t.chains[b].push(t.next_overflow)),
        map: t.map.insert(key, value),
        ..t
    }
}

/// What an insert that appends in place does to the index: the tail page of
/// the key's bucket gains the entry and is written to its frame, in one
/// journalled write; no other page and no other journal changes.
pub open spec fn inserted_in_place(
    before: LinHash,
    after: LinHash,
    key: Seq<u8>,
    value: Seq<u8>,
) -> bool {
    let b = before.spec_bucket_id(key) as int;
    let t = before.table();
    let jt = t.chains[b].len() as int;
    let page = before.tail_page(b).push(key, value);
    &&& LinHash::same_bases(before, after)
    &&& after.table() == table_with(t, key, value)
    &&& pages_same_but(
        before.main_space(),
        before.overflow_space(),
        t,
        after.main_space(),
        after.overflow_space(),
        after.table(),
        b,
        jt,
        page,
    )
    &&& if jt == 0 {
        &&& with_write(
            before.main_space().pending(),
            after.main_space().pending(),
            b * 4096,
            frame_bytes(page),
        )
        &&& after.overflow_space().pending() == before.overflow_space().pending()
    } else {
        &&& with_write(
            before.overflow_space().pending(),
            after.overflow_space().pending(),
            t.chains[b][jt - 1] * 4096,
            frame_bytes(page),
        )
        &&& after.main_space().pending() == before.main_space().pending()
    }
}

/// What an insert that allocates an overflow page does to the index: the
/// entry goes to a new page, alone, under the next overflow id; the overflow
/// space is synced; and then the old tail page of the key's bucket is
/// written again with its link to the new page. The journals record these
/// three effects in this order; no other page changes.
pub open spec fn inserted_overflow(
    before: LinHash,
    after: LinHash,
    key: Seq<u8>,
    value: Seq<u8>,
) -> bool {
    let b = before.spec_bucket_id(key) as int;
    let t = before.table();
    let jt = t.chains[b].len() as int;
    let id = t.next_overflow;
    let fresh = PageView::empty().push(key, value);
    let tail = before.tail_page(b).with_overflow(Some(id));
    let o0 = before.overflow_space().pending();
    let o1 = after.overflow_space().pending();
    let m0 = before.main_space().pending();
    let m1 = after.main_space().pending();
    &&& LinHash::same_bases(before, after)
    &&& after.table() == table_with_overflow(t, b, key, value)
    &&& pages_same_but(
        before.main_space(),
        before.overflow_space(),
        t,
        after.main_space(),
        after.overflow_space(),
        after.table(),
        b,
        jt,
        tail,
    )
    &&& page_at(after.main_space(), after.overflow_space(), after.table(), b, jt + 1) == fresh
    &&& o1.len() >= o0.len() + 2
    &&& o1.take(o0.len() as int) == o0
    &&& is_write(o1[o0.len() as int], id * 4096, frame_bytes(fresh))
    &&& o1[o0.len() as int + 1] == IoOp::Sync
    &&& if jt == 0 {
        &&& o1.len() == o0.len() + 2
        &&& with_write(m0, m1, b * 4096, frame_bytes(tail))
    } else {
        &&& o1.len() == o0.len() + 3
        &&& is_write(o1[o0.len() as int + 2], t.chains[b][jt - 1] * 4096, frame_bytes(tail))
        &&& m1 == m0
    }
}

/// Appending a new key's entry to the tail page of its bucket keeps the
/// store in order, the map gaining the entry.
#[verifier::rlimit(40)]
pub proof fn lemma_insert_in_place(
    main: Device,
    overflow: Device,
    t: Table,
    main2: Device,
    overflow2: Device,
    b: int,
    key: Seq<u8>,
    value: Seq<u8>,
)
    requires
        store_ok(main, overflow, t),
        0 <= b < t.n_buckets(),
        key.len() >= 8,
        t.bucket_id(key) == b,
        !t.map.contains_key(key),
        main2.wf(),
        overflow2.wf(),
        ({
            let jt = t.chains[b].len() as int;
            let pushed = page_at(main, overflow, t, b, jt).push(key, value);
            &&& pushed.encoded_len() <= 4088
            &&& slot_at(main2, overflow2, t.chains[b], b, jt) == Slot::Page(pushed)
            &&& forall|id: u64| (jt != 0 || id != b) ==> #[trigger] main2.slot(id) == main.slot(id)
            &&& forall|id: u64|
                (jt == 0 || id != t.chains[b][jt - 1]) ==> #[trigger] overflow2.slot(id)
                    == overflow.slot(id)
        }),
    ensures
        store_ok(main2, overflow2, table_with(t, key, value)),
        pages_same_but(
            main,
            overflow,
            t,
            main2,
            overflow2,
            table_with(t, key, value),
            b,
            t.chains[b].len() as int,
            page_at(main, overflow, t, b, t.chains[b].len() as int).push(key, value),
        ),
{
    let t2 = table_with(t, key, value);
    let jt = t.chains[b].len() as int;
    let tail = page_at(main, overflow, t, b, jt);
    let pushed = tail.push(key, value);
    lemma_base_count(0, t.level);
    assert(bucket_ok(main, overflow, t, b));
    assert(page_ok(main, overflow, t, b, jt));
    lemma_page_len_steps(tail, key, value, None);
    assert forall|b2: int, j2: int| 0 <= b2 < t.n_buckets() && 0 <= j2 < t.chain_len(b2) implies (
    #[trigger] page_at(main2, overflow2, t2, b2, j2)) == (if b2 == b && j2 == jt {
        pushed
    } else {
        page_at(main, overflow, t, b2, j2)
    }) && slot_at(main2, overflow2, t2.chains[b2], b2, j2) is Page by {
        assert(bucket_ok(main, overflow, t, b2));
        assert(page_ok(main, overflow, t, b2, j2));
        if b2 == b && j2 == jt {
        } else if j2 == 0 {
            assert(main2.slot(b2 as u64) == main.slot(b2 as u64));
        } else {
            let id = t.chains[b2][j2 - 1];
            if jt > 0 {
                assert(t.chains[b2][j2 - 1] != t.chains[b][jt - 1]);
            }
            assert(overflow2.slot(id) == overflow.slot(id));
        }
    }
    assert forall|b2: int| 0 <= b2 < t2.n_buckets() implies #[trigger] bucket_ok(
        main2,
        overflow2,
        t2,
        b2,
    ) by {
        assert(bucket_ok(main, overflow, t, b2));
        assert forall|j2: int| 0 <= j2 < t2.chain_len(b2) implies #[trigger] page_ok(
            main2,
            overflow2,
            t2,
            b2,
            j2,
        ) by {
            assert(page_ok(main, overflow, t, b2, j2));
            let p_old = page_at(main, overflow, t, b2, j2);
            let p_new = page_at(main2, overflow2, t2, b2, j2);
            assert forall|i: int| 0 <= i < p_new.entries.len() implies t2.entry_ok(
                b2,
                #[trigger] p_new.entries[i],
            ) by {
                if i < p_old.entries.len() {
                    assert(p_new.entries[i] == p_old.entries[i]);
                    assert(t.entry_ok(b2, p_old.entries[i]));
                }
            }
        }
    }
    assert forall|k: Seq<u8>| #[trigger] t2.map.dom().contains(k) implies bucket_has(
        main2,
        overflow2,
        t2,
        t2.bucket_id(k) as int,
        (k, t2.map[k]),
    ) by {
        if k == key {
            assert(pushed.entries[pushed.entries.len() - 1] == (key, value));
            assert(page_has(main2, overflow2, t2, b, jt, (key, value)));
        } else {
            assert(t.map.dom().contains(k));
            let bk = t.bucket_id(k) as int;
            let e = (k, t.map[k]);
            lemma_bucket_of_bound(spec_hash(k), t.level, t.split);
            assert(bucket_has(main, overflow, t, bk, e));
            let j0 = choose|j0: int| #[trigger] page_has(main, overflow, t, bk, j0, e);
            let p_old = page_at(main, overflow, t, bk, j0);
            let i = choose|i: int| 0 <= i < p_old.entries.len() && p_old.entries[i] == e;
            let p_new = page_at(main2, overflow2, t2, bk, j0);
            assert(p_new.entries[i] == e);
            assert(page_has(main2, overflow2, t2, bk, j0, e));
        }
    }
    assert(keys_stored(main2, overflow2, t2));
}

/// Chaining a new overflow page with a new key's entry to the tail page of
/// its bucket keeps the store in order, the map gaining the entry.
#[verifier::rlimit(40)]
pub proof fn lemma_insert_overflow(
    main: Device,
    overflow: Device,
    t: Table,
    main2: Device,
    overflow2: Device,
    b: int,
    key: Seq<u8>,
    value: Seq<u8>,
)
    requires
        store_ok(main, overflow, t),
        0 <= b < t.n_buckets(),
        key.len() >= 8,
        t.bucket_id(key) == b,
        !t.map.contains_key(key),
        main2.wf(),
        overflow2.wf(),
        Device::in_range(t.next_overflow),
        PageView::empty().push(key, value).encoded_len() <= 4088,
        ({
            let jt = t.chains[b].len() as int;
            let tail2 = page_at(main, overflow, t, b, jt).with_overflow(Some(t.next_overflow));
            &&& overflow2.slot(t.next_overflow) == Slot::Page(PageView::empty().push(key, value))
            &&& slot_at(main2, overflow2, t.chains[b], b, jt) == Slot::Page(tail2)
            &&& forall|id: u64| (jt != 0 || id != b) ==> #[trigger] main2.slot(id) == main.slot(id)
            &&& forall|id: u64|
                id != t.next_overflow && (jt == 0 || id != t.chains[b][jt - 1])
                    ==> #[trigger] overflow2.slot(id) == overflow.slot(id)
        }),
    ensures
        store_ok(main2, overflow2, table_with_overflow(t, b, key, value)),
        pages_same_but(
            main,
            overflow,
            t,
            main2,
            overflow2,
            table_with_overflow(t, b, key, value),
            b,
            t.chains[b].len() as int,
            page_at(main, overflow, t, b, t.chains[b].len() as int).with_overflow(
                Some(t.next_overflow),
            ),
        ),
        page_at(
            main2,
            overflow2,
            table_with_overflow(t, b, key, value),
            b,
            t.chains[b].len() as int + 1,
        ) == PageView::empty().push(key, value),
{
    let t2 = table_with_overflow(t, b, key, value);
    let jt = t.chains[b].len() as int;
    let new_id = t.next_overflow;
    let tail = page_at(main, overflow, t, b, jt);
    let tail2 = tail.with_overflow(Some(new_id));
    let fresh = PageView::empty().push(key, value);
    lemma_base_count(0, t.level);
    assert(bucket_ok(main, overflow, t, b));
    assert(page_ok(main, overflow, t, b, jt));
    lemma_page_len_steps(tail, key, value, Some(new_id));
    lemma_page_len_steps(PageView::empty(), key, value, None);
    assert forall|b2: int, j2: int|
        0 <= b2 < t.n_buckets() && 0 <= j2 < t.chains[b2].len() implies #[trigger] t.chains[b2][j2]
        < new_id by {
        assert(bucket_ok(main, overflow, t, b2));
        assert(page_ok(main, overflow, t, b2, j2 + 1));
    }
    assert forall|b2: int, j2: int| 0 <= b2 < t2.n_buckets() && 0 <= j2 < t2.chain_len(b2) implies (
    #[trigger] page_at(main2, overflow2, t2, b2, j2)) == (if b2 == b && j2 == jt {
        tail2
    } else if b2 == b && j2 == jt + 1 {
        fresh
    } else {
        page_at(main, overflow, t, b2, j2)
    }) && slot_at(main2, overflow2, t2.chains[b2], b2, j2) is Page by {
        assert(bucket_ok(main, overflow, t, b2));
        if b2 == b && j2 == jt {
        } else if b2 == b && j2 == jt + 1 {
        } else {
            assert(page_ok(main, overflow, t, b2, j2));
            if j2 == 0 {
                assert(main2.slot(b2 as u64) == main.slot(b2 as u64));
            } else {
                let id = t.chains[b2][j2 - 1];
                assert(t2.chains[b2][j2 - 1] == id);
                assert(id < new_id);
                if jt > 0 {
                    assert(t.chains[b2][j2 - 1] != t.chains[b][jt - 1]);
                }
                assert(overflow2.slot(id) == overflow.slot(id));
            }
        }
    }
    assert(t2.chains_disjoint()) by {
        assert forall|b1: int, j1: int, b2: int, j2: int|
            0 <= b1 < t2.chains.len() && 0 <= j1 < t2.chains[b1].len() && 0 <= b2
                < t2.chains.len() && 0 <= j2 < t2.chains[b2].len() && (b1 != b2 || j1
                != j2) implies #[trigger] t2.chains[b1][j1] != #[trigger] t2.chains[b2][j2] by {
            let old1 = !(b1 == b && j1 == jt);
            let old2 = !(b2 == b && j2 == jt);
            if old1 {
                assert(t2.chains[b1][j1] == t.chains[b1][j1]);
                assert(t.chains[b1][j1] < new_id);
            }
            if old2 {
                assert(t2.chains[b2][j2] == t.chains[b2][j2]);
                assert(t.chains[b2][j2] < new_id);
            }
        }
    }
    assert forall|b2: int| 0 <= b2 < t2.n_buckets() implies #[trigger] bucket_ok(
        main2,
        overflow2,
        t2,
        b2,
    ) by {
        assert(bucket_ok(main, overflow, t, b2));
        assert forall|j2: int| 0 <= j2 < t2.chain_len(b2) implies #[trigger] page_ok(
            main2,
            overflow2,
            t2,
            b2,
            j2,
        ) by {
            let p_new = page_at(main2, overflow2, t2, b2, j2);
            if b2 == b && j2 == jt + 1 {
                assert(p_new == fresh);
                assert(fresh.entries[0] == (key, value));
                assert(t2.chains[b][jt] == new_id);
            } else {
                assert(page_ok(main, overflow, t, b2, j2));
                let p_old = page_at(main, overflow, t, b2, j2);
                if j2 > 0 {
                    assert(t2.chains[b2][j2 - 1] == t.chains[b2][j2 - 1]);
                }
                assert forall|i: int| 0 <= i < p_new.entries.len() implies t2.entry_ok(
                    b2,
                    #[trigger] p_new.entries[i],
                ) by {
                    assert(p_new.entries[i] == p_old.entries[i]);
                    assert(t.entry_ok(b2, p_old.entries[i]));
                }
            }
        }
    }
    assert forall|k: Seq<u8>| #[trigger] t2.map.dom().contains(k) implies bucket_has(
        main2,
        overflow2,
        t2,
        t2.bucket_id(k) as int,
        (k, t2.map[k]),
    ) by {
        if k == key {
            assert(fresh.entries[0] == (key, value));
            assert(page_at(main2, overflow2, t2, b, jt + 1) == fresh);
            assert(page_has(main2, overflow2, t2, b, jt + 1, (key, value)));
        } else {
            assert(t.map.dom().contains(k));
            let bk = t.bucket_id(k) as int;
            let e = (k, t.map[k]);
            lemma_bucket_of_bound(spec_hash(k), t.level, t.split);
            assert(bucket_has(main, overflow, t, bk, e));
            let j0 = choose|j0: int| #[trigger] page_has(main, overflow, t, bk, j0, e);
            let p_old = page_at(main, overflow, t, bk, j0);
            let i = choose|i: int| 0 <= i < p_old.entries.len() && p_old.entries[i] == e;
            let p_new = page_at(main2, overflow2, t2, bk, j0);
            assert(p_new.entries[i] == e);
            assert(page_has(main2, overflow2, t2, bk, j0, e));
        }
    }
    assert(keys_stored(main2, overflow2, t2));
}

/// The insert operation on an index.
pub struct Insert<'a> {
    pub db: &'a mut LinHash,
}

impl Insert<'_> {
    /// Walks the bucket `b` of `key` to its tail page, looking for the key
    /// on the way: the tail page and where it lives, or
    /// [`Error::KeyAlreadyExists`] where a page of the chain holds the key.
    fn find_tail(db: &LinHash, key: &[u8], b: u64) -> (r: Result<(PageId, Page)>)
        requires
            db.wf(),
            key@.len() >= 8,
            b == db.spec_bucket_id(key@),
        ensures
            match r {
                Ok((tail_id, tail)) => {
                    let ids = db.table().chains[b as int];
                    &&& !db@.contains_key(key@)
                    &&& tail@ == db.tail_page(b as int)
                    &&& tail_id == (if ids.len() == 0 {
                        PageId::Main(b)
                    } else {
                        PageId::Overflow(ids[ids.len() - 1])
                    })
                },
                Err(e) => e == Error::KeyAlreadyExists && db@.contains_key(key@),
            },
    {
        let ghost t = db.table();
        let ghost main0 = db.main_pages;
        let ghost overflow0 = db.overflow_pages;
        let ghost bi = b as int;
        let ghost k = key@;
        proof {
            lemma_bucket_of_bound(spec_hash(k), t.level, t.split);
            assert(bucket_ok(main0, overflow0, t, bi));
            assert(page_ok(main0, overflow0, t, bi, 0));
        }
        let mut tail_id = PageId::Main(b);
        let mut tail = found(db.main_pages.read_page(b));
        let ghost mut j: int = 0;
        // Get the tail-page.
        loop
            invariant
                db.wf(),
                db.table() == t,
                db.main_pages == main0,
                db.overflow_pages == overflow0,
                store_ok(main0, overflow0, t),
                k == key@,
                k.len() >= 8,
                bi == b,
                bi == t.bucket_id(k),
                0 <= bi < t.n_buckets(),
                0 <= j < t.chain_len(bi),
                tail@ == page_at(main0, overflow0, t, bi, j),
                j == 0 ==> tail_id == PageId::Main(b),
                j > 0 ==> tail_id == PageId::Overflow(t.chains[bi][j - 1]),
                forall|j2: int, i: int|
                    0 <= j2 < j && 0 <= i < page_at(main0, overflow0, t, bi, j2).entries.len() ==> (
                    #[trigger] page_at(main0, overflow0, t, bi, j2).entries[i]).0 != k,
            ensures
                j == t.chains[bi].len(),
                !t.map.contains_key(k),
                tail@ == page_at(main0, overflow0, t, bi, j),
                j == 0 ==> tail_id == PageId::Main(b),
                j > 0 ==> tail_id == PageId::Overflow(t.chains[bi][j - 1]),
            decreases t.chain_len(bi) - j,
        {
            proof {
                assert(bucket_ok(main0, overflow0, t, bi));
                assert(page_ok(main0, overflow0, t, bi, j));
                lemma_lookup_wf(tail@, k, 0);
            }
            if tail.contains_key(key) {
                proof {
                    let found = tail@.lookup(k)->0;
                    let i = choose|i: int|
                        0 <= i < tail@.entries.len() && #[trigger] tail@.entries[i] == (k, found);
                    assert(t.entry_ok(bi, tail@.entries[i]));
                }
                return Err(Error::KeyAlreadyExists);
            }
            match tail.overflow_id {
                Some(overflow_id) => {
                    proof {
                        assert(page_ok(main0, overflow0, t, bi, j + 1));
                    }
                    tail = found(db.overflow_pages.read_page(overflow_id));
                    tail_id = PageId::Overflow(overflow_id);
                    proof {
                        j = j + 1;
                    }
                },
                None => {
                    proof {
                        if t.map.contains_key(k) {
                            let e = (k, t.map[k]);
                            assert(t.map.dom().contains(k));
                            let j2 = choose|j2: int| #[trigger]
                                page_has(main0, overflow0, t, bi, j2, e);
                            let p = page_at(main0, overflow0, t, bi, j2);
                            let i = choose|i: int| 0 <= i < p.entries.len() && p.entries[i] == e;
                            assert(p.entries[i].0 == k);
                            assert(false);
                        }
                    }
                    break ;
                },
            }
        }
        Ok((tail_id, tail))
    }

    /// What a successful insert does to the index: it appends in place where
    /// the tail page of the key's bucket holds fewer entries than the page
    /// capacity, and allocates an overflow page where it does not.
    pub open spec fn inserted(before: LinHash, after: LinHash, key: Seq<u8>, value: Seq<u8>) -> bool {
        let tail = before.tail_page(before.spec_bucket_id(key) as int);
        if tail.entries.len() < after.capacity()->0 {
            inserted_in_place(before, after, key, value)
        } else {
            inserted_overflow(before, after, key, value)
        }
    }

    /// Whether `after` has the table state, the bytes and the journals of
    /// `before`.
    pub open spec fn untouched(before: LinHash, after: LinHash) -> bool {
        &&& LinHash::same_bases(before, after)
        &&& after.table() == before.table()
        &&& after.main_space().image() == before.main_space().image()
        &&& after.overflow_space().image() == before.overflow_space().image()
        &&& after.main_space().pending() == before.main_space().pending()
        &&& after.overflow_space().pending() == before.overflow_space().pending()
    }

    /// The index is in order, does not hold `key`, and `tail`, living at
    /// `tail_id`, is the tail page of the key's bucket.
    pub open spec fn at_tail(db: LinHash, key: Seq<u8>, tail_id: PageId, tail: PageView) -> bool {
        let b = db.spec_bucket_id(key) as int;
        let ids = db.table().chains[b];
        &&& db.wf()
        &&& db.capacity() is Some
        &&& key.len() >= 8
        &&& !db@.contains_key(key)
        &&& db@.len() < u64::MAX
        &&& tail == db.tail_page(b)
        &&& tail_id == (if ids.len() == 0 {
            PageId::Main(b as u64)
        } else {
            PageId::Overflow(ids[ids.len() - 1])
        })
    }

    /// Appends the entry to the tail page and rewrites that page.
    #[verifier::rlimit(40)]
    fn append_in_place(
        db: &mut LinHash,
        tail_id: PageId,
        tail: Page,
        key: Vec<u8>,
        value: Vec<u8>,
    ) -> (r: Result<()>)
        requires
            Self::at_tail(*old(db), key@, tail_id, tail@),
        ensures
            final(db).wf(),
            final(db).level() == old(db).level(),
            final(db).split_pointer() == old(db).split_pointer(),
            final(db).capacity() == old(db).capacity(),
            final(db).next_overflow() == old(db).next_overflow(),
            r is Ok <==> tail@.push(key@, value@).encoded_len() <= 4088,
            match r {
                Ok(_) => {
                    &&& final(db)@ == old(db)@.insert(key@, value@)
                    &&& final(db).item_count() == old(db).item_count() + 1
                    &&& inserted_in_place(*old(db), *final(db), key@, value@)
                },
                Err(e) => {
                    &&& final(db)@ == old(db)@
                    &&& final(db).item_count() == old(db).item_count()
                    &&& e == Error::PageTooLarge
                    &&& Self::untouched(*old(db), *final(db))
                },
            },
    {
        let ghost t = db.table();
        let ghost main0 = db.main_pages;
        let ghost overflow0 = db.overflow_pages;
        let ghost k = key@;
        let ghost v = value@;
        let ghost bi = t.bucket_id(k) as int;
        let ghost j = t.chains[bi].len() as int;
        proof {
            lemma_base_count(0, t.level);
            lemma_bucket_of_bound(spec_hash(k), t.level, t.split);
            assert(bucket_ok(main0, overflow0, t, bi));
            assert(page_ok(main0, overflow0, t, bi, j));
        }
        let mut tail = tail;
        tail.push(key, value);
        match db.write_to(tail_id, tail) {
            Ok(_) => {},
            Err(e) => {
                proof {
                    lemma_same_images(main0, overflow0, t, db.main_pages, db.overflow_pages);
                }
                return Err(e);
            },
        }
        proof {
            lemma_insert_in_place(main0, overflow0, t, db.main_pages, db.overflow_pages, bi, k, v);
            db.map@ = t.map.insert(k, v);
            assert(t.map.insert(k, v).dom() =~= t.map.dom().insert(k));
            assert(db.table() == table_with(t, k, v));
        }
        db.n_items = db.n_items + 1;
        Ok(())
    }

    /// Writes the entry to a new overflow page, syncs the overflow space and
    /// links the tail page to the new page.
    #[verifier::rlimit(40)]
    fn append_overflow(
        db: &mut LinHash,
        tail_id: PageId,
        tail: Page,
        key: Vec<u8>,
        value: Vec<u8>,
    ) -> (r: Result<()>)
        requires
            Self::at_tail(*old(db), key@, tail_id, tail@),
        ensures
            final(db).wf(),
            final(db).level() == old(db).level(),
            final(db).split_pointer() == old(db).split_pointer(),
            final(db).capacity() == old(db).capacity(),
            r is Ok <==> PageView::empty().push(key@, value@).encoded_len() <= 4088
                && Device::in_range(old(db).next_overflow()),
            match r {
                Ok(_) => {
                    &&& final(db)@ == old(db)@.insert(key@, value@)
                    &&& final(db).item_count() == old(db).item_count() + 1
                    &&& inserted_overflow(*old(db), *final(db), key@, value@)
                },
                Err(e) => {
                    &&& final(db)@ == old(db)@
                    &&& final(db).item_count() == old(db).item_count()
                    &&& final(db).next_overflow() == old(db).next_overflow()
                    &&& e == (if PageView::empty().push(key@, value@).encoded_len() > 4088 {
                        Error::PageTooLarge
                    } else {
                        Error::IO
                    })
                    &&& Self::untouched(*old(db), *final(db))
                },
            },
    {
        let ghost t = db.table();
        let ghost main0 = db.main_pages;
        let ghost overflow0 = db.overflow_pages;
        let ghost k = key@;
        let ghost v = value@;
        let ghost bi = t.bucket_id(k) as int;
        let ghost j = t.chains[bi].len() as int;
        let ghost tail0 = tail@;
        proof {
            lemma_base_count(0, t.level);
            lemma_bucket_of_bound(spec_hash(k), t.level, t.split);
            assert(bucket_ok(main0, overflow0, t, bi));
            assert(page_ok(main0, overflow0, t, bi, j));
            lemma_page_len_steps(tail0, k, v, Some(t.next_overflow));
        }
        // Allocate a new overflow page.
        let new_overflow_id = db.next_overflow_id;
        let mut new_page = Page::new();
        new_page.push(key, value);
        match db.overflow_pages.write_page(new_overflow_id, new_page) {
            Ok(_) => {},
            Err(e) => {
                proof {
                    lemma_same_images(main0, overflow0, t, db.main_pages, db.overflow_pages);
                }
                return Err(e);
            },
        }
        let ghost overflow1 = db.overflow_pages;

        // Since sync is only happened when we allocate a new overflow page and it is rare,
        // the performance impact is small.
        let _ = db.overflow_pages.sync();
        let ghost overflow2 = db.overflow_pages;
        assert(forall|id: u64| #[trigger] overflow2.slot(id) == overflow1.slot(id));
        let ghost o0 = overflow0.pending();
        let ghost o2 = overflow2.pending();
        proof {
            assert(o2.len() == o0.len() + 2);
            assert(o2.take(o0.len() as int) =~= o0);
            assert(o2[o0.len() as int] == overflow1.pending().last());
        }

        // After writing the new overflow page, update the old tail page.
        let mut tail = tail;
        tail.overflow_id = Some(new_overflow_id);
        assert(tail@ == tail0.with_overflow(Some(new_overflow_id)));
        proof {
            if j > 0 {
                assert(t.chains[bi][j - 1] < new_overflow_id);
            }
        }
        let written = db.write_to(tail_id, tail);
        assert(written is Ok);
        db.next_overflow_id = new_overflow_id + 1;
        proof {
            let o3 = db.overflow_pages.pending();
            if j > 0 {
                assert(o3.drop_last() == o2);
                assert(o3.take(o0.len() as int) =~= o0);
                assert(o3[o0.len() as int] == o2[o0.len() as int]);
                assert(o3[o0.len() as int + 1] == o2[o0.len() as int + 1]);
            }
            lemma_insert_overflow(main0, overflow0, t, db.main_pages, db.overflow_pages, bi, k, v);
            db.chains@ = t.chains.update(bi, t.chains[bi].push(new_overflow_id));
            db.map@ = t.map.insert(k, v);
            assert(t.map.insert(k, v).dom() =~= t.map.dom().insert(k));
            assert(db.table() == table_with_overflow(t, bi, k, v));
        }
        db.n_items = db.n_items + 1;
        Ok(())
    }

    /// Inserts `key` with `value`. The key's bucket is walked to its tail
    /// page; a key found on the way is refused with
    /// [`Error::KeyAlreadyExists`]. Where the tail page holds fewer entries
    /// than the page capacity, the entry is appended to it and the page
    /// rewritten. Otherwise the entry goes to a new overflow page, the
    /// overflow space is synced, and the old tail page is rewritten with its
    /// link to the new page. The capacity is calibrated from this key and
    /// value if it is not yet known. An insert that fails leaves the view and
    /// the item count as they were.
    pub fn exec(self, key: Vec<u8>, value: Vec<u8>) -> (r: Result<()>)
        requires
            old(self.db).wf(),
            key@.len() >= 8,
            old(self.db).capacity() is None ==> fixed_page_len(2, key@.len(), value@.len())
                <= 4088,
            old(self.db)@.len() < u64::MAX,
        ensures
            final(self.db).wf(),
            final(self.db).level() == old(self.db).level(),
            final(self.db).split_pointer() == old(self.db).split_pointer(),
            final(self.db).capacity() == LinHash::calibrated(
                old(self.db).capacity(),
                key@.len(),
                value@.len(),
            ),
            extends(old(self.db).main_space().pending(), final(self.db).main_space().pending()),
            extends(
                old(self.db).overflow_space().pending(),
                final(self.db).overflow_space().pending(),
            ),
            r is Ok <==> !old(self.db)@.contains_key(key@) && old(self.db).insert_fits(
                key@,
                value@,
            ),
            match r {
                Ok(_) => {
                    &&& final(self.db)@ == old(self.db)@.insert(key@, value@)
                    &&& final(self.db).item_count() == old(self.db).item_count() + 1
                    &&& Self::inserted(*old(self.db), *final(self.db), key@, value@)
                },
                Err(e) => {
                    &&& final(self.db)@ == old(self.db)@
                    &&& final(self.db).item_count() == old(self.db).item_count()
                    &&& final(self.db).next_overflow() == old(self.db).next_overflow()
                    &&& e == old(self.db).insert_error(key@, value@)
                    &&& Self::untouched(*old(self.db), *final(self.db))
                },
            },
    {
        // The capacity is a fixed value so the size of key and value must be fixed.
        self.db.calibrate(key.len(), value.len());
        let max = match self.db.max_kv_per_page {
            Some(max) => max,
            None => unreached(),
        };
        let b = self.db.calc_main_page_id(key.as_slice());
        proof {
            lemma_extends(self.db.main_space().pending(), self.db.main_space().pending());
            lemma_extends(self.db.overflow_space().pending(), self.db.overflow_space().pending());
        }
        let (tail_id, tail) = Self::find_tail(&*self.db, key.as_slice(), b)?;
        let r = if tail.len() < max as usize {
            // If there is space in the tail-page, insert directly.
            Self::append_in_place(self.db, tail_id, tail, key, value)
        } else {
            // If not, allocate a new overflow page.
            Self::append_overflow(self.db, tail_id, tail, key, value)
        };
        proof {
            let m0 = old(self.db).main_space().pending();
            let m1 = self.db.main_space().pending();
            let o0 = old(self.db).overflow_space().pending();
            let o1 = self.db.overflow_space().pending();
            if m1.len() <= m0.len() + 1 && (m1 == m0 || m1.drop_last() == m0) {
                lemma_extends(m0, m1);
            }
            if o1.len() <= o0.len() + 1 && (o1 == o0 || o1.drop_last() == o0) {
                lemma_extends(o0, o1);
            }
        }
        r
    }
}

} // verus!
