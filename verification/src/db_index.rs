//! The store's index: keys to locators in the value log, kept in a
//! linear-hash index as twelve-byte values.

use vstd::prelude::*;
use crate::device::unwritten;
use crate::error::{Error, Result};
use crate::io::{extends, replay, IoOp, IO};
use crate::le::{
    get_u32, get_u64, lemma_u32_le, lemma_u64_le, put_u32, put_u64, spec_u32_from_le_bytes,
    spec_u32_to_le_bytes, spec_u64_from_le_bytes, spec_u64_to_le_bytes,
};
use crate::linhash::{fixed_page_len, LinHash};

verus! {

/// The length of an encoded locator.
pub const LOCATOR_LEN: usize = 12;

/// Where a value lives in the log: the offset of its record and the record's
/// length, header included.
#[derive(Debug, Clone, Copy, PartialEq, Eq, Structural)]
pub struct IndexEntry {
    pub data_offset: u64,
    pub data_len: u32,
}

/// The twelve bytes that stand for a locator in the index: offset, then
/// length, little-endian.
pub open spec fn locator_bytes(e: IndexEntry) -> Seq<u8> {
    spec_u64_to_le_bytes(e.data_offset) + spec_u32_to_le_bytes(e.data_len)
}

/// The locator that twelve bytes stand for.
pub open spec fn locator_of(b: Seq<u8>) -> IndexEntry {
    IndexEntry {
        data_offset: spec_u64_from_le_bytes(b.subrange(0, 8)),
        data_len: spec_u32_from_le_bytes(b.subrange(8, 12)),
    }
}

/// A locator survives the trip through its bytes, which are twelve.
pub proof fn lemma_locator_bytes(e: IndexEntry)
    ensures
        locator_bytes(e).len() == 12,
        locator_of(locator_bytes(e)) == e,
{
    lemma_u64_le(e.data_offset);
    lemma_u32_le(e.data_len);
    let b = locator_bytes(e);
    assert(b.subrange(0, 8) =~= spec_u64_to_le_bytes(e.data_offset));
    assert(b.subrange(8, 12) =~= spec_u32_to_le_bytes(e.data_len));
}

/// Encodes a locator.
pub fn encode_locator(e: IndexEntry) -> (b: Vec<u8>)
    ensures
        b@ == locator_bytes(e),
        b@.len() == 12,
{
    let mut b: Vec<u8> = Vec::new();
    put_u64(&mut b, e.data_offset);
    put_u32(&mut b, e.data_len);
    proof {
        lemma_locator_bytes(e);
    }
    b
}

/// Decodes a locator from its twelve bytes.
pub fn decode_locator(b: &[u8]) -> (e: IndexEntry)
    requires
        b@.len() == LOCATOR_LEN,
    ensures
        e == locator_of(b@),
{
    IndexEntry { data_offset: get_u64(b, 0), data_len: get_u32(b, 8) }
}

/// The index of the store: a linear-hash index whose values are locators.
pub struct DBIndex {
    db: LinHash,
}

impl View for DBIndex {
    type V = Map<Seq<u8>, IndexEntry>;

    /// The locator of every key the index holds.
    closed spec fn view(&self) -> Map<Seq<u8>, IndexEntry> {
        Map::new(|k: Seq<u8>| self.db@.contains_key(k), |k: Seq<u8>| locator_of(self.db@[k]))
    }
}

impl DBIndex {
    /// The index is in order, and every value it holds is a locator.
    pub closed spec fn wf(&self) -> bool {
        &&& self.db.wf()
        &&& forall|k: Seq<u8>| #[trigger] self.db@.contains_key(k) ==> self.db@[k].len() == 12
    }

    /// The number of keys the index holds.
    pub closed spec fn item_count(&self) -> u64 {
        self.db.item_count()
    }

    /// Whether the page capacity of the index is known.
    pub closed spec fn calibrated(&self) -> bool {
        self.db.capacity() is Some
    }

    /// Whether there is room in the index for a locator under `key`.
    pub closed spec fn insert_fits(&self, key: Seq<u8>) -> bool {
        self.db.insert_fits(key, locator_bytes(IndexEntry { data_offset: 0, data_len: 0 }))
    }

    /// The error with which an insert under `key` that cannot succeed
    /// fails: [`Error::KeyAlreadyExists`] where the index holds the key, else
    /// [`Error::PageTooLarge`] where the page that would take the locator
    /// does not fit its frame, and else [`Error::IO`].
    pub closed spec fn insert_error(&self, key: Seq<u8>) -> Error {
        self.db.insert_error(key, locator_bytes(IndexEntry { data_offset: 0, data_len: 0 }))
    }

    /// The journals of the main and of the overflow page space.
    pub closed spec fn pending(&self) -> (Seq<IoOp>, Seq<IoOp>) {
        (self.db.main_space().pending(), self.db.overflow_space().pending())
    }

    /// The bytes of the main and of the overflow page space.
    pub closed spec fn images(&self) -> (Seq<u8>, Seq<u8>) {
        (self.db.main_space().image(), self.db.overflow_space().image())
    }

    /// The bytes of the two page spaces as they stood when the journals were
    /// last drained, or when the index was opened.
    pub closed spec fn bases(&self) -> (Seq<u8>, Seq<u8>) {
        (self.db.main_space().base(), self.db.overflow_space().base())
    }

    /// In an index that is in order each page space's journal, replayed on
    /// the bytes of the last drain, gives the page space's current bytes.
    pub proof fn lemma_journals(&self)
        requires
            self.wf(),
        ensures
            replay(self.bases().0, self.pending().0) == self.images().0,
            replay(self.bases().1, self.pending().1) == self.images().1,
    {
        self.db.lemma_journals();
    }

    /// In an index that is in order every key is at least eight bytes long.
    pub proof fn lemma_keys(&self)
        requires
            self.wf(),
        ensures
            forall|k: Seq<u8>| #[trigger] self@.contains_key(k) ==> k.len() >= 8,
            self@.dom().finite(),
            self@.len() == self.item_count(),
    {
        self.db.lemma_wf_buckets();
        self.db.lemma_wf_state();
        assert(self@.dom() =~= self.db@.dom());
    }

    /// Opens the index over a main and an overflow page space.
    pub fn open(main: IO, overflow: IO) -> (r: Result<DBIndex>)
        requires
            main.wf(),
            overflow.wf(),
        ensures
            r matches Ok(index) ==> {
                &&& index.wf()
                &&& index@ == Map::<Seq<u8>, IndexEntry>::empty()
                &&& index.item_count() == 0
                &&& !index.calibrated()
                &&& index.bases() == (main.base(), overflow.base())
            },
            unwritten(main@, 0) ==> r is Ok,
    {
        let db = LinHash::new(main, overflow)?;
        let index = DBIndex { db };
        assert(index@ =~= Map::<Seq<u8>, IndexEntry>::empty());
        Ok(index)
    }

    /// Records the locator `e` under the key `k`. A key that the index holds
    /// is refused with [`Error::KeyAlreadyExists`]; a failed insert changes
    /// nothing.
    pub fn insert(&mut self, k: Vec<u8>, e: IndexEntry) -> (r: Result<()>)
        requires
            old(self).wf(),
            k@.len() >= 8,
            !old(self).calibrated() ==> fixed_page_len(2, k@.len(), 12) <= 4088,
            old(self).item_count() < u64::MAX,
        ensures
            final(self).wf(),
            final(self).calibrated(),
            final(self).bases() == old(self).bases(),
            extends(old(self).pending().0, final(self).pending().0),
            extends(old(self).pending().1, final(self).pending().1),
            r is Ok <==> !old(self)@.contains_key(k@) && old(self).insert_fits(k@),
            match r {
                Ok(_) => {
                    &&& final(self)@ == old(self)@.insert(k@, e)
                    &&& final(self).item_count() == old(self).item_count() + 1
                },
                Err(err) => {
                    &&& final(self)@ == old(self)@
                    &&& final(self).item_count() == old(self).item_count()
                    &&& final(self).pending() == old(self).pending()
                    &&& final(self).images() == old(self).images()
                    &&& err == old(self).insert_error(k@)
                    &&& err == Error::KeyAlreadyExists <==> old(self)@.contains_key(k@)
                    &&& err == Error::KeyAlreadyExists || err == Error::PageTooLarge || err
                        == Error::IO
                },
            },
    {
        let v = encode_locator(e);
        proof {
            lemma_locator_bytes(e);
            lemma_locator_bytes(IndexEntry { data_offset: 0, data_len: 0 });
            self.db.lemma_wf_state();
            crate::page::lemma_page_len_steps(
                self.db.tail_page(self.db.spec_bucket_id(k@) as int),
                k@,
                v@,
                None,
            );
            crate::page::lemma_page_len_steps(
                self.db.tail_page(self.db.spec_bucket_id(k@) as int),
                k@,
                locator_bytes(IndexEntry { data_offset: 0, data_len: 0 }),
                None,
            );
            crate::page::lemma_page_len_steps(
                crate::page::PageView::empty(),
                k@,
                v@,
                None,
            );
            crate::page::lemma_page_len_steps(
                crate::page::PageView::empty(),
                k@,
                locator_bytes(IndexEntry { data_offset: 0, data_len: 0 }),
                None,
            );
        }
        let r = self.db.insert(k, v);
        proof {
            if r is Ok {
                assert(self@ =~= old(self)@.insert(k@, e));
            } else {
                assert(self@ =~= old(self)@);
            }
        }
        r
    }

    /// The locator recorded under `k`, or `None` where the index holds none.
    pub fn get(&self, k: &[u8]) -> (r: Result<Option<IndexEntry>>)
        requires
            self.wf(),
            k@.len() >= 8,
        ensures
            r matches Ok(found) && found == (if self@.contains_key(k@) {
                Some(self@[k@])
            } else {
                None
            }),
    {
        let data = match self.db.get(k)? {
            Some(data) => data,
            None => {
                return Ok(None);
            },
        };
        let v = decode_locator(data.as_slice());
        Ok(Some(v))
    }

    /// The number of keys the index holds.
    pub fn len(&self) -> (n: u64)
        requires
            self.wf(),
        ensures
            n == self.item_count(),
            n == self@.len(),
    {
        proof {
            self.lemma_keys();
        }
        self.db.len()
    }

    /// Whether the page capacity of the index is known: whether an insert
    /// has calibrated it.
    pub fn is_calibrated(&self) -> (known: bool)
        ensures
            known == self.calibrated(),
    {
        self.db.max_entries_per_page().is_some()
    }

    /// Journals a request to make both page spaces durable.
    pub fn sync(&mut self) -> (r: Result<()>)
        requires
            old(self).wf(),
        ensures
            final(self).wf(),
            r is Ok,
            final(self)@ == old(self)@,
            final(self).item_count() == old(self).item_count(),
            final(self).calibrated() == old(self).calibrated(),
            final(self).bases() == old(self).bases(),
            final(self).images() == old(self).images(),
            final(self).pending() == (
                old(self).pending().0.push(IoOp::Sync),
                old(self).pending().1.push(IoOp::Sync),
            ),
    {
        let r = self.db.sync();
        assert(self@ =~= old(self)@);
        r
    }

    /// Hands the journals of the main and of the overflow page space to the
    /// host.
    pub fn take_pending(&mut self) -> (ops: (Vec<IoOp>, Vec<IoOp>))
        requires
            old(self).wf(),
        ensures
            final(self).wf(),
            ops.0@ == old(self).pending().0,
            ops.1@ == old(self).pending().1,
            final(self).pending() == (Seq::<IoOp>::empty(), Seq::<IoOp>::empty()),
            final(self).images() == old(self).images(),
            final(self).bases() == final(self).images(),
            replay(old(self).bases().0, ops.0@) == final(self).images().0,
            replay(old(self).bases().1, ops.1@) == final(self).images().1,
            final(self)@ == old(self)@,
            final(self).item_count() == old(self).item_count(),
            final(self).calibrated() == old(self).calibrated(),
    {
        let ops = self.db.take_pending();
        assert(self@ =~= old(self)@);
        ops
    }
}

} // verus!
