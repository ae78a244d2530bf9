//! The linear-hash index: buckets addressed by the low bits of a key's hash,
//! each a chain of pages, grown one bucket at a time.

use vstd::prelude::*;
use crate::device::{frame_bytes, frame_of, read_frame, unwritten, Device, Slot};
use crate::error::{Error, Result};
use crate::io::{
    extends, lemma_extends, lemma_extends_trans, replay, with_write, write_at, IoOp, IO,
};
use crate::laws::put;
use crate::le::get_u64;
use crate::page::{Page, PageView};

pub mod addr;
pub mod calibrate;
pub mod op;
pub mod table;

pub use addr::{
    advanced, base_count, bucket_of, dest_of, lemma_base_count, lemma_bucket_of_bound,
    lemma_level_bound, lemma_split_addressing, spec_hash,
};
pub use calibrate::{
    calc_max_kv_per_page, fixed_page_len, lemma_fixed_page_len, lemma_max_kv_per_page,
    lemma_uniform_fits, spec_max_kv_per_page, uniform,
};
pub use table::{
    bucket_has, bucket_ok, keys_stored, lemma_same_images, lemma_stored_entry_ok, link_of, page_at,
    page_has, page_ok, pages_same_but, slot_at, store_ok, Table,
};

verus! {

/// Where a page lives: in the main page space or in the overflow page space.
pub enum PageId {
    Main(u64),
    Overflow(u64),
}

/// The linear-hash index over a main and an overflow page space.
pub struct LinHash {
    main_pages: Device,
    main_base_level: u8,
    next_split_main_page_id: u64,
    overflow_pages: Device,
    next_overflow_id: u64,
    n_items: u64,
    max_kv_per_page: Option<u8>,
    chains: Ghost<Seq<Seq<u64>>>,
    map: Ghost<Map<Seq<u8>, Seq<u8>>>,
}

impl View for LinHash {
    type V = Map<Seq<u8>, Seq<u8>>;

    /// The key-value pairs the index holds.
    closed spec fn view(&self) -> Map<Seq<u8>, Seq<u8>> {
        self.map@
    }
}

impl LinHash {
    /// The table state of the index.
    pub closed spec fn table(&self) -> Table {
        Table {
            level: self.main_base_level as u64,
            split: self.next_split_main_page_id,
            next_overflow: self.next_overflow_id,
            chains: self.chains@,
            map: self.map@,
        }
    }

    /// The number of low hash bits that address the base buckets.
    pub closed spec fn level(&self) -> u8 {
        self.main_base_level
    }

    /// The bucket that is split next.
    pub closed spec fn split_pointer(&self) -> u64 {
        self.next_split_main_page_id
    }

    /// The id the next overflow page receives.
    pub closed spec fn next_overflow(&self) -> u64 {
        self.next_overflow_id
    }

    /// The item count the index keeps.
    pub closed spec fn item_count(&self) -> u64 {
        self.n_items
    }

    /// The calibrated number of entries a page may hold, once known.
    pub closed spec fn capacity(&self) -> Option<u8> {
        self.max_kv_per_page
    }

    /// The main page space.
    pub closed spec fn main_space(&self) -> Device {
        self.main_pages
    }

    /// The overflow page space.
    pub closed spec fn overflow_space(&self) -> Device {
        self.overflow_pages
    }

    /// The number of buckets: the base buckets and those split off so far.
    pub open spec fn n_buckets(&self) -> int {
        base_count(self.level() as u64) + self.split_pointer()
    }

    /// Whether the journals of `after` start from the bytes from which
    /// those of `before` start: whether no journal was drained in between.
    pub open spec fn same_bases(before: LinHash, after: LinHash) -> bool {
        &&& after.main_space().base() == before.main_space().base()
        &&& after.overflow_space().base() == before.overflow_space().base()
    }

    /// In an index that is in order each page space's journal, replayed on
    /// the bytes of the last drain, gives the page space's current bytes.
    pub proof fn lemma_journals(&self)
        requires
            self.wf(),
        ensures
            replay(self.main_space().base(), self.main_space().pending())
                == self.main_space().image(),
            replay(self.overflow_space().base(), self.overflow_space().pending())
                == self.overflow_space().image(),
    {
        self.main_pages.lemma_journal();
        self.overflow_pages.lemma_journal();
    }

    /// The bucket that `key` is addressed to.
    pub open spec fn spec_bucket_id(&self, key: Seq<u8>) -> u64 {
        bucket_of(spec_hash(key), self.level() as u64, self.split_pointer())
    }

    /// Whether some page of bucket `b`'s chain holds the entry `e`.
    pub open spec fn bucket_has(&self, b: int, e: (Seq<u8>, Seq<u8>)) -> bool {
        bucket_has(self.main_space(), self.overflow_space(), self.table(), b, e)
    }

    /// The index is in order: its table state is consistent, every bucket's
    /// chain is in order, every key of the view is stored in the bucket it is
    /// addressed to, and the item count is the number of keys.
    pub closed spec fn wf(&self) -> bool {
        &&& store_ok(self.main_pages, self.overflow_pages, self.table())
        &&& (self.max_kv_per_page matches Some(m) ==> m >= 2)
        &&& (self.max_kv_per_page is None ==> self.map@ == Map::<Seq<u8>, Seq<u8>>::empty())
        &&& self.n_items == self.map@.dom().len()
    }

    /// In an index that is in order the split pointer lies below the number
    /// of base buckets, the level is at most 52, and the item count is the
    /// number of keys in the view.
    pub proof fn lemma_wf_state(&self)
        requires
            self.wf(),
        ensures
            1 <= self.level() <= 52,
            self.split_pointer() < base_count(self.level() as u64),
            self@.dom().finite(),
            self.item_count() == self@.len(),
            self.capacity() matches Some(m) ==> m >= 2,
            self.capacity() is None ==> self@ == Map::<Seq<u8>, Seq<u8>>::empty(),
    {
    }

    /// In an index that is in order every key of the view is at least eight
    /// bytes long and is stored, with its value, in a page of the bucket it
    /// is addressed to; and every entry stored in a bucket is an entry of the
    /// view, addressed to that bucket.
    pub proof fn lemma_wf_buckets(&self)
        requires
            self.wf(),
        ensures
            forall|k: Seq<u8>| #[trigger]
                self@.contains_key(k) ==> k.len() >= 8 && self.bucket_has(
                    self.spec_bucket_id(k) as int,
                    (k, self@[k]),
                ),
            forall|b: int, e: (Seq<u8>, Seq<u8>)|
                0 <= b < self.n_buckets() && #[trigger] self.bucket_has(b, e) ==> {
                    &&& e.0.len() >= 8
                    &&& self.spec_bucket_id(e.0) == b
                    &&& self@.contains_key(e.0)
                    &&& self@[e.0] == e.1
                },
    {
        let t = self.table();
        assert forall|b: int, e: (Seq<u8>, Seq<u8>)|
            0 <= b < self.n_buckets() && #[trigger] self.bucket_has(b, e) implies {
            &&& e.0.len() >= 8
            &&& self.spec_bucket_id(e.0) == b
            &&& self@.contains_key(e.0)
            &&& self@[e.0] == e.1
        } by {
            lemma_stored_entry_ok(self.main_pages, self.overflow_pages, t, b, e);
        }
        assert forall|k: Seq<u8>| #[trigger] self@.contains_key(k) implies k.len() >= 8
            && self.bucket_has(self.spec_bucket_id(k) as int, (k, self@[k])) by {
            assert(t.map.dom().contains(k));
            let b = t.bucket_id(k) as int;
            lemma_bucket_of_bound(spec_hash(k), t.level, t.split);
            lemma_stored_entry_ok(self.main_pages, self.overflow_pages, t, b, (k, t.map[k]));
        }
    }

    /// Opens an index over two page spaces. Where the main space's first
    /// frame was never written, the two first buckets are written as empty
    /// pages. Where it holds a page, the index is accepted only if its two
    /// first buckets are empty and unchained, since the table state of a
    /// populated index is not stored: otherwise the result is
    /// [`Error::Malformed`]. A corrupt first or second frame gives
    /// [`Error::ChecksumMismatch`].
    pub fn new(main: IO, overflow: IO) -> (r: Result<LinHash>)
        requires
            main.wf(),
            overflow.wf(),
        ensures
            r matches Ok(index) ==> {
                &&& index.wf()
                &&& index@ == Map::<Seq<u8>, Seq<u8>>::empty()
                &&& index.level() == 1
                &&& index.split_pointer() == 0
                &&& index.next_overflow() == 0
                &&& index.item_count() == 0
                &&& index.capacity() is None
                &&& index.main_space().base() == main.base()
                &&& index.overflow_space().base() == overflow.base()
                &&& index.overflow_space().pending() == overflow.pending()
                &&& index.overflow_space().image() == overflow@
                &&& index.main_space().image() == (if read_frame(frame_of(main@, 0)) is Blank {
                    write_at(
                        write_at(main@, 0, frame_bytes(PageView::empty())),
                        4096,
                        frame_bytes(PageView::empty()),
                    )
                } else {
                    main@
                })
            },
            unwritten(main@, 0) ==> r is Ok,
            match read_frame(frame_of(main@, 0)) {
                Slot::Blank => r is Ok,
                Slot::Corrupt => r matches Err(Error::ChecksumMismatch),
                Slot::Page(first) => if first != PageView::empty() {
                    r matches Err(Error::Malformed)
                } else {
                    match read_frame(frame_of(main@, 1)) {
                        Slot::Blank => r matches Err(Error::Malformed),
                        Slot::Corrupt => r matches Err(Error::ChecksumMismatch),
                        Slot::Page(second) => if second != PageView::empty() {
                            r matches Err(Error::Malformed)
                        } else {
                            r is Ok
                        },
                    }
                },
            },
    {
        let mut main_pages = Device::new(main);
        let overflow_pages = Device::new(overflow);
        match main_pages.read_page(0)? {
            Some(first) => {
                if !Self::is_empty_page(&first) {
                    return Err(Error::Malformed);
                }
                match main_pages.read_page(1)? {
                    Some(second) => {
                        if !Self::is_empty_page(&second) {
                            return Err(Error::Malformed);
                        }
                    },
                    None => {
                        return Err(Error::Malformed);
                    },
                }
            },
            None => {
                // Since the pages are not initialized, insert two empty pages.
                let r0 = main_pages.write_page(0, Page::new());
                assert(r0 is Ok);
                let r1 = main_pages.write_page(1, Page::new());
                assert(r1 is Ok);
            },
        }
        let index = LinHash {
            main_pages,
            main_base_level: 1,
            next_split_main_page_id: 0,
            overflow_pages,
            next_overflow_id: 0,
            max_kv_per_page: None,
            n_items: 0,
            chains: Ghost(Seq::new(2, |b: int| Seq::<u64>::empty())),
            map: Ghost(Map::empty()),
        };
        proof {
            lemma_base_count(0, 1);
            assert(base_count(1) == 2) by (bit_vector);
            let t = index.table();
            assert(t.n_buckets() == 2);
            assert forall|b: int| 0 <= b < t.n_buckets() implies #[trigger] bucket_ok(
                index.main_pages,
                index.overflow_pages,
                t,
                b,
            ) by {
                assert forall|j: int| 0 <= j < t.chain_len(b) implies #[trigger] page_ok(
                    index.main_pages,
                    index.overflow_pages,
                    t,
                    b,
                    j,
                ) by {
                    assert(j == 0);
                    assert(page_at(index.main_pages, index.overflow_pages, t, b, 0)
                        == PageView::empty());
                }
            }
        }
        Ok(index)
    }

    /// Whether a page has no entries, no digests and no link.
    fn is_empty_page(page: &Page) -> (empty: bool)
        ensures
            empty == (page@ == PageView::empty()),
    {
        let empty = page.hashes.len() == 0 && page.kv_pairs.len() == 0 && page.overflow_id.is_none();
        proof {
            if empty {
                assert(page@.hashes =~= Seq::empty());
                assert(page@.entries =~= Seq::empty());
            } else if page.hashes.len() != 0 {
                assert(page@.hashes.len() != PageView::empty().hashes.len());
            } else if page.kv_pairs.len() != 0 {
                assert(page@.entries.len() != PageView::empty().entries.len());
            }
        }
        empty
    }

    /// The capacity after calibration for the given sizes: the one already
    /// known, or else the one calibration finds.
    pub open spec fn calibrated(capacity: Option<u8>, ksize: nat, vsize: nat) -> Option<u8> {
        match capacity {
            Some(m) => Some(m),
            None => Some(spec_max_kv_per_page(ksize, vsize) as u8),
        }
    }

    /// Fixes the page capacity from the sizes of the first key and value.
    /// Once the capacity is known, further calls change nothing.
    pub fn calibrate(&mut self, key_len: usize, value_len: usize)
        requires
            old(self).wf(),
            old(self).capacity() is None ==> fixed_page_len(2, key_len as nat, value_len as nat)
                <= 4088,
        ensures
            final(self).wf(),
            final(self).capacity() == Self::calibrated(
                old(self).capacity(),
                key_len as nat,
                value_len as nat,
            ),
            final(self).table() == old(self).table(),
            final(self).main_space() == old(self).main_space(),
            final(self).overflow_space() == old(self).overflow_space(),
            final(self)@ == old(self)@,
            final(self).level() == old(self).level(),
            final(self).split_pointer() == old(self).split_pointer(),
            final(self).next_overflow() == old(self).next_overflow(),
            final(self).item_count() == old(self).item_count(),
    {
        // The capacity is a fixed value so the size of key and value must be fixed.
        if self.max_kv_per_page.is_none() {
            self.max_kv_per_page = Some(calc_max_kv_per_page(key_len, value_len));
        }
    }

    /// The last page of bucket `b`'s chain.
    pub open spec fn tail_page(&self, b: int) -> PageView {
        page_at(
            self.main_space(),
            self.overflow_space(),
            self.table(),
            b,
            self.table().chains[b].len() as int,
        )
    }

    /// Whether there is room for the entry: in the tail page of the key's
    /// bucket, where that page holds fewer entries than the page capacity,
    /// and else in a new overflow page of its own, whose frame must lie in
    /// the addressable range.
    pub open spec fn insert_fits(&self, key: Seq<u8>, value: Seq<u8>) -> bool {
        let tail = self.tail_page(self.spec_bucket_id(key) as int);
        let capacity = Self::calibrated(self.capacity(), key.len(), value.len())->0;
        if tail.entries.len() < capacity {
            tail.push(key, value).encoded_len() <= 4088
        } else {
            &&& PageView::empty().push(key, value).encoded_len() <= 4088
            &&& Device::in_range(self.next_overflow())
        }
    }

    /// Writes `page` where `id` says.
    pub(crate) fn write_to(&mut self, id: PageId, page: Page) -> (r: Result<()>)
        requires
            old(self).main_space().wf(),
            old(self).overflow_space().wf(),
        ensures
            final(self).main_space().wf(),
            final(self).overflow_space().wf(),
            final(self).table() == old(self).table(),
            final(self).capacity() == old(self).capacity(),
            final(self).item_count() == old(self).item_count(),
            Self::same_bases(*old(self), *final(self)),
            match id {
                PageId::Main(n) => {
                    &&& final(self).overflow_space() == old(self).overflow_space()
                    &&& r is Ok <==> page@.encoded_len() <= 4088 && Device::in_range(n)
                    &&& r is Ok ==> final(self).main_space().slot(n) == Slot::Page(page@)
                    &&& r is Ok ==> with_write(
                        old(self).main_space().pending(),
                        final(self).main_space().pending(),
                        n * 4096,
                        frame_bytes(page@),
                    )
                    &&& r is Ok ==> forall|other: u64|
                        other != n ==> #[trigger] final(self).main_space().slot(other) == old(self).main_space().slot(other)
                },
                PageId::Overflow(n) => {
                    &&& final(self).main_space() == old(self).main_space()
                    &&& r is Ok <==> page@.encoded_len() <= 4088 && Device::in_range(n)
                    &&& r is Ok ==> final(self).overflow_space().slot(n) == Slot::Page(page@)
                    &&& r is Ok ==> with_write(
                        old(self).overflow_space().pending(),
                        final(self).overflow_space().pending(),
                        n * 4096,
                        frame_bytes(page@),
                    )
                    &&& r is Ok ==> forall|other: u64|
                        other != n ==> #[trigger] final(self).overflow_space().slot(other) == old(self).overflow_space().slot(other)
                },
            },
            r matches Err(e) ==> {
                &&& final(self).main_space().image() == old(self).main_space().image()
                &&& final(self).overflow_space().image() == old(self).overflow_space().image()
                &&& final(self).main_space().pending() == old(self).main_space().pending()
                &&& final(self).overflow_space().pending() == old(self).overflow_space().pending()
                &&& e == (if page@.encoded_len() > 4088 {
                    Error::PageTooLarge
                } else {
                    Error::IO
                })
            },
    {
        match id {
            PageId::Main(b) => self.main_pages.write_page(b, page),
            PageId::Overflow(id) => self.overflow_pages.write_page(id, page),
        }
    }

    /// The error with which an insert that cannot succeed fails:
    /// [`Error::KeyAlreadyExists`] where the index holds the key, else
    /// [`Error::PageTooLarge`] where the page that would take the entry does
    /// not fit its frame, and else [`Error::IO`], the new overflow page lying
    /// outside the addressable range.
    pub open spec fn insert_error(&self, key: Seq<u8>, value: Seq<u8>) -> Error {
        let tail = self.tail_page(self.spec_bucket_id(key) as int);
        let capacity = Self::calibrated(self.capacity(), key.len(), value.len())->0;
        if self@.contains_key(key) {
            Error::KeyAlreadyExists
        } else if tail.entries.len() < capacity || PageView::empty().push(
            key,
            value,
        ).encoded_len() > 4088 {
            Error::PageTooLarge
        } else {
            Error::IO
        }
    }

    /// The hash by which `key` is addressed.
    pub fn hash(&self, key: &[u8]) -> (h: u64)
        requires
            key@.len() >= 8,
        ensures
            h == spec_hash(key@),
    {
        get_u64(key, 0)
    }

    /// The bucket that `key` is addressed to.
    pub fn calc_main_page_id(&self, key: &[u8]) -> (b: u64)
        requires
            self.wf(),
            key@.len() >= 8,
        ensures
            b == self.spec_bucket_id(key@),
            b < self.n_buckets(),
    {
        let hash = self.hash(key);
        let level = self.main_base_level as u64;
        proof {
            lemma_base_count(hash, level);
        }
        let b = hash & ((1u64 << level) - 1);
        if b < self.next_split_main_page_id {
            hash & ((1u64 << (level + 1)) - 1)
        } else {
            b
        }
    }

    /// The value the index holds for `key`, or `None` where it holds none.
    pub fn get(&self, key: &[u8]) -> (r: Result<Option<Vec<u8>>>)
        requires
            self.wf(),
            key@.len() >= 8,
        ensures
            r matches Ok(found) && match found {
                Some(value) => self@.contains_key(key@) && self@[key@] == value@,
                None => !self@.contains_key(key@),
            },
    {
        op::Get { db: self }.exec(key)
    }

    /// Whether the load factor exceeds 0.8: whether the items are more than
    /// four fifths of what the main pages hold at the page capacity. An index
    /// that has not been calibrated is never overloaded.
    pub open spec fn overloaded(&self) -> bool {
        self.capacity() matches Some(m) && 5 * self.item_count() > 4 * (self.n_buckets() * m)
    }

    /// Whether the load factor exceeds 0.8, counted against the main pages
    /// the index has now.
    pub fn over_load_factor(&self) -> (over: bool)
        requires
            self.wf(),
        ensures
            over == self.overloaded(),
    {
        let max = match self.max_kv_per_page {
            Some(max) => max,
            None => {
                return false;
            },
        };
        let level = self.main_base_level as u64;
        proof {
            lemma_base_count(0, level);
        }
        let n_main_pages = (1u64 << level) + self.next_split_main_page_id;
        assert(0 <= n_main_pages * max <= 0x20_0000_0000_0000 * 255) by (nonlinear_arith)
            requires
                0 <= n_main_pages <= 0x20_0000_0000_0000,
                0 <= max <= 255,
        ;
        let max_items: u128 = n_main_pages as u128 * max as u128;
        5 * (self.n_items as u128) > 4 * max_items
    }

    /// Inserts `key` with `value`, and then, where the load factor exceeds
    /// 0.8, splits the bucket at the split pointer. A key that the index
    /// holds is refused with [`Error::KeyAlreadyExists`], and a failed insert
    /// changes neither the view nor the table state. A split that fails does
    /// not fail the insert: the index stays as the insert left it.
    pub fn insert(&mut self, key: Vec<u8>, value: Vec<u8>) -> (r: Result<()>)
        requires
            old(self).wf(),
            key@.len() >= 8,
            old(self).capacity() is None ==> fixed_page_len(2, key@.len(), value@.len()) <= 4088,
            old(self)@.len() < u64::MAX,
        ensures
            final(self).wf(),
            final(self).capacity() == Self::calibrated(
                old(self).capacity(),
                key@.len(),
                value@.len(),
            ),
            Self::same_bases(*old(self), *final(self)),
            extends(old(self).main_space().pending(), final(self).main_space().pending()),
            extends(old(self).overflow_space().pending(), final(self).overflow_space().pending()),
            r is Ok <==> !old(self)@.contains_key(key@) && old(self).insert_fits(key@, value@),
            r is Ok || r == Err::<(), Error>(Error::KeyAlreadyExists) ==> final(self)@ == put(
                old(self)@,
                key@,
                value@,
            ),
            match r {
                Ok(_) => {
                    &&& final(self)@ == old(self)@.insert(key@, value@)
                    &&& final(self).item_count() == old(self).item_count() + 1
                    &&& Self::grown(*old(self), *final(self))
                    &&& final(self).split_pointer() == old(self).split_pointer()
                        ==> op::Insert::inserted(*old(self), *final(self), key@, value@)
                    &&& final(self).split_pointer() != old(self).split_pointer()
                        ==> op::split::resettled(*old(self), *final(self))
                },
                Err(e) => {
                    &&& final(self)@ == old(self)@
                    &&& final(self).item_count() == old(self).item_count()
                    &&& final(self).level() == old(self).level()
                    &&& final(self).split_pointer() == old(self).split_pointer()
                    &&& final(self).next_overflow() == old(self).next_overflow()
                    &&& e == old(self).insert_error(key@, value@)
                    &&& op::Insert::untouched(*old(self), *final(self))
                },
            },
    {
        op::Insert { db: self }.exec(key, value)?;

        proof {
            lemma_base_count(0, self.main_base_level as u64);
        }
        let ghost main1 = self.main_pages.pending();
        let ghost overflow1 = self.overflow_pages.pending();
        if self.over_load_factor() {
            let _ = op::Split { db: self }.exec();
        }
        proof {
            if self.main_pages.pending() == main1 {
                lemma_extends(main1, main1);
            }
            if self.overflow_pages.pending() == overflow1 {
                lemma_extends(overflow1, overflow1);
            }
            lemma_extends_trans(
                old(self).main_space().pending(),
                main1,
                self.main_pages.pending(),
            );
            lemma_extends_trans(
                old(self).overflow_space().pending(),
                overflow1,
                self.overflow_pages.pending(),
            );
        }
        Ok(())
    }

    /// How the table state moves from `before` an insert to `after` it: it
    /// stays, or the split pointer advances by one bucket. It stays where the
    /// load factor after the insert does not exceed 0.8; where it does, the
    /// state stays only if the split cannot be written. The level never
    /// falls.
    pub open spec fn grown(before: LinHash, after: LinHash) -> bool {
        let stayed = after.level() == before.level() && after.split_pointer()
            == before.split_pointer();
        let split = advanced(
            before.level() as u64,
            before.split_pointer(),
            after.level() as u64,
            after.split_pointer(),
        );
        let load = 5 * (before.item_count() + 1) > 4 * (before.n_buckets() * after.capacity()->0);
        &&& stayed || split
        &&& !load ==> stayed
        &&& load && stayed ==> op::split::outcome(after) is Err
        &&& after.level() >= before.level()
    }

    /// Journals a request to make both page spaces durable.
    pub fn sync(&mut self) -> (r: Result<()>)
        requires
            old(self).wf(),
        ensures
            final(self).wf(),
            r is Ok,
            final(self)@ == old(self)@,
            final(self).table() == old(self).table(),
            final(self).capacity() == old(self).capacity(),
            final(self).item_count() == old(self).item_count(),
            final(self).level() == old(self).level(),
            final(self).split_pointer() == old(self).split_pointer(),
            Self::same_bases(*old(self), *final(self)),
            final(self).main_space().image() == old(self).main_space().image(),
            final(self).overflow_space().image() == old(self).overflow_space().image(),
            final(self).main_space().pending() == old(self).main_space().pending().push(
                IoOp::Sync,
            ),
            final(self).overflow_space().pending() == old(self).overflow_space().pending().push(
                IoOp::Sync,
            ),
    {
        let ghost t = self.table();
        let ghost main0 = self.main_pages;
        let ghost overflow0 = self.overflow_pages;
        let _ = self.main_pages.sync();
        let _ = self.overflow_pages.sync();
        proof {
            lemma_same_images(main0, overflow0, t, self.main_pages, self.overflow_pages);
        }
        Ok(())
    }

    /// Hands the journals of the main and of the overflow page space to the
    /// host: the positioned writes and sync requests since the last drain.
    pub fn take_pending(&mut self) -> (ops: (Vec<IoOp>, Vec<IoOp>))
        requires
            old(self).wf(),
        ensures
            final(self).wf(),
            ops.0@ == old(self).main_space().pending(),
            ops.1@ == old(self).overflow_space().pending(),
            final(self).main_space().pending() == Seq::<IoOp>::empty(),
            final(self).overflow_space().pending() == Seq::<IoOp>::empty(),
            final(self).main_space().image() == old(self).main_space().image(),
            final(self).overflow_space().image() == old(self).overflow_space().image(),
            final(self).main_space().base() == final(self).main_space().image(),
            final(self).overflow_space().base() == final(self).overflow_space().image(),
            replay(old(self).main_space().base(), ops.0@) == final(self).main_space().image(),
            final(self).overflow_space().image() == replay(
                old(self).overflow_space().base(),
                ops.1@,
            ),
            final(self)@ == old(self)@,
            final(self).table() == old(self).table(),
            final(self).capacity() == old(self).capacity(),
            final(self).item_count() == old(self).item_count(),
            final(self).level() == old(self).level(),
            final(self).split_pointer() == old(self).split_pointer(),
    {
        let ghost t = self.table();
        let ghost main0 = self.main_pages;
        let ghost overflow0 = self.overflow_pages;
        let main_ops = self.main_pages.take_pending();
        let overflow_ops = self.overflow_pages.take_pending();
        proof {
            lemma_same_images(main0, overflow0, t, self.main_pages, self.overflow_pages);
        }
        (main_ops, overflow_ops)
    }

    /// The number of items in the index.
    pub fn len(&self) -> (n: u64)
        requires
            self.wf(),
        ensures
            n == self@.len(),
            n == self.item_count(),
    {
        self.n_items
    }

    /// The number of low hash bits that address the base buckets.
    pub fn main_base_level(&self) -> (level: u8)
        ensures
            level == self.level(),
    {
        self.main_base_level
    }

    /// The bucket that is split next.
    pub fn next_split_pointer(&self) -> (split: u64)
        ensures
            split == self.split_pointer(),
    {
        self.next_split_main_page_id
    }

    /// The calibrated number of entries a page may hold, once known.
    pub fn max_entries_per_page(&self) -> (capacity: Option<u8>)
        ensures
            capacity == self.capacity(),
    {
        self.max_kv_per_page
    }
}

} // verus!
