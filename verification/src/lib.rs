//! An append-only key-value store: an immutable value log addressed by a
//! linear-hash index whose buckets are chains of fixed-size, checksummed pages.
//!
//! The store does no I/O of its own. Each of its three files is held as an
//! in-memory image ([`io::IO`]) from which reads are served; every write and
//! every sync request is journalled for the host to replay on the file.
//!
//! The layers, leaves first:
//!
//! - [`digest`]: the CRC-32 and XXH32 functions the store takes from outside;
//! - [`le`], [`io`]: little-endian integers, and the image of a file with its
//!   journal;
//! - [`page`]: bucket pages, their byte encoding, and lookups that scan the
//!   encoding in place;
//! - [`device`]: page spaces, sequences of checksummed 4096-byte frames;
//! - [`linhash`]: the linear-hash index, with its operations in
//!   [`linhash::op`];
//! - [`data_log`]: the append-only value log;
//! - [`db_index`] and [`ForeverDB`]: keys to locators, and the store that
//!   joins index and log;
//! - [`laws`]: what holds over whole runs of inserts.
//!
//! Every type states what it means to be in order in a `wf` predicate that
//! its constructors establish and its methods keep, and what it holds in a
//! view: a map from keys to values for the index and the store.

use vstd::prelude::*;
use vstd::slice::slice_to_vec;
use io::{extends, lemma_extends, replay};

pub mod digest;
pub mod error;
pub mod io;
pub mod le;
pub mod page;
pub mod device;
pub mod linhash;
pub mod data_log;
pub mod db_index;
pub mod laws;

pub use data_log::DataLog;
pub use db_index::{DBIndex, IndexEntry};
pub use device::Device;
pub use error::{Error, Result};
pub use io::{IoOp, IO};
pub use linhash::LinHash;
pub use page::{Page, PageRef};

use data_log::{lemma_read_appended, lemma_read_stable, read_record, record_bytes};
use linhash::fixed_page_len;

verus! {

/// The linear-hash index under the name it has as an index of its own.
pub type ForeverHash = LinHash;

/// Whether a locator names a record that lies wholly inside the log and
/// reads as a record.
pub open spec fn located(log: Seq<u8>, e: IndexEntry) -> bool {
    &&& e.data_offset + e.data_len <= log.len()
    &&& read_record(log, e.data_offset as int, e.data_len as nat) is Ok
}

/// The value a locator names in the log.
pub open spec fn value_at(log: Seq<u8>, e: IndexEntry) -> Seq<u8> {
    read_record(log, e.data_offset as int, e.data_len as nat)->Ok_0
}

/// Whether a log and an index belong together: both are in order, and every
/// locator of the index names a record of the log.
pub open spec fn consistent(data_log: DataLog, db_index: DBIndex) -> bool {
    &&& data_log.wf()
    &&& db_index.wf()
    &&& forall|k: Seq<u8>| #[trigger]
        db_index@.contains_key(k) ==> located(data_log.image(), db_index@[k])
}

/// The key-value pairs that a log and an index hold together.
pub open spec fn pairs(data_log: DataLog, db_index: DBIndex) -> Map<Seq<u8>, Seq<u8>> {
    Map::new(
        |k: Seq<u8>| db_index@.contains_key(k),
        |k: Seq<u8>| value_at(data_log.image(), db_index@[k]),
    )
}

/// The store: a value log and the index that addresses it.
pub struct ForeverDB {
    data_log: DataLog,
    db_index: DBIndex,
}

impl View for ForeverDB {
    type V = Map<Seq<u8>, Seq<u8>>;

    /// The key-value pairs the store holds.
    closed spec fn view(&self) -> Map<Seq<u8>, Seq<u8>> {
        pairs(self.data_log, self.db_index)
    }
}

impl ForeverDB {
    /// The value log of the store.
    pub closed spec fn log(&self) -> DataLog {
        self.data_log
    }

    /// The index of the store.
    pub closed spec fn index(&self) -> DBIndex {
        self.db_index
    }

    /// The store is in order: its log and its index belong together.
    pub open spec fn wf(&self) -> bool {
        consistent(self.log(), self.index())
    }

    /// A store over a log and an index that belong together, as a log and a
    /// newly opened index do.
    pub fn new(data_log: DataLog, db_index: DBIndex) -> (db: ForeverDB)
        requires
            consistent(data_log, db_index),
        ensures
            db.wf(),
            db.log() == data_log,
            db.index() == db_index,
            db@ == pairs(data_log, db_index),
    {
        Self { data_log, db_index }
    }

    /// Stores `data` under `key`: appends the value to the log, then records
    /// its locator in the index. Where the index refuses the key, the store
    /// holds what it held before; the record already appended stays in the
    /// log, unreachable.
    pub fn insert(&mut self, key: &[u8], data: &[u8]) -> (r: Result<()>)
        requires
            old(self).wf(),
            key@.len() >= 8,
            !old(self).index().calibrated() ==> fixed_page_len(2, key@.len(), 12) <= 4088,
            old(self).index().item_count() < u64::MAX,
        ensures
            final(self).wf(),
            final(self).log().base() == old(self).log().base(),
            final(self).index().bases() == old(self).index().bases(),
            extends(old(self).log().pending(), final(self).log().pending()),
            extends(old(self).index().pending().0, final(self).index().pending().0),
            extends(old(self).index().pending().1, final(self).index().pending().1),
            r is Ok <==> {
                &&& 8 + data@.len() <= u32::MAX
                &&& old(self).log().cursor() + 8 + data@.len() <= usize::MAX
                &&& !old(self)@.contains_key(key@)
                &&& old(self).index().insert_fits(key@)
            },
            final(self).log().image() == (if 8 + data@.len() <= u32::MAX && old(
                self,
            ).log().cursor() + 8 + data@.len() <= usize::MAX {
                old(self).log().image() + record_bytes(data@)
            } else {
                old(self).log().image()
            }),
            final(self).log().cursor() == (if 8 + data@.len() <= u32::MAX && old(
                self,
            ).log().cursor() + 8 + data@.len() <= usize::MAX {
                (old(self).log().cursor() + 8 + data@.len()) as u64
            } else {
                old(self).log().cursor()
            }),
            final(self).index().item_count() == old(self).index().item_count() + (if r is Ok {
                1int
            } else {
                0int
            }),
            r is Ok || r == Err::<(), Error>(Error::KeyAlreadyExists) ==> final(self)@ == laws::put(
                old(self)@,
                key@,
                data@,
            ),
            match r {
                Ok(_) => {
                    &&& final(self)@ == old(self)@.insert(key@, data@)
                    &&& final(self).index()@ == old(self).index()@.insert(
                        key@,
                        (IndexEntry {
                            data_offset: old(self).log().cursor(),
                            data_len: (8 + data@.len()) as u32,
                        }),
                    )
                },
                Err(e) => {
                    &&& final(self)@ == old(self)@
                    &&& final(self).index()@ == old(self).index()@
                    &&& e == (if 8 + data@.len() > u32::MAX {
                        Error::LogAppendFailed
                    } else if old(self).log().cursor() + 8 + data@.len() > usize::MAX {
                        Error::IO
                    } else {
                        old(self).index().insert_error(key@)
                    })
                    &&& e == Error::KeyAlreadyExists <==> 8 + data@.len() <= u32::MAX && old(
                        self,
                    ).log().cursor() + 8 + data@.len() <= usize::MAX && old(self)@.contains_key(
                        key@,
                    )
                },
            },
    {
        let ghost log0 = self.data_log.image();
        proof {
            self.data_log.lemma_cursor();
            lemma_extends(self.data_log.pending(), self.data_log.pending());
            lemma_extends(self.db_index.pending().0, self.db_index.pending().0);
            lemma_extends(self.db_index.pending().1, self.db_index.pending().1);
        }
        let (data_offset, data_len) = self.data_log.append(data)?;
        proof {
            lemma_extends(old(self).data_log.pending(), self.data_log.pending());
        }
        let ghost log1 = self.data_log.image();
        proof {
            lemma_read_appended(log0, data@);
            assert forall|k: Seq<u8>| #[trigger] self.db_index@.contains_key(k) implies located(
                log1,
                self.db_index@[k],
            ) && value_at(log1, self.db_index@[k]) == value_at(log0, self.db_index@[k]) by {
                let e = self.db_index@[k];
                lemma_read_stable(
                    log0,
                    record_bytes(data@),
                    e.data_offset as int,
                    e.data_len as nat,
                );
            }
            assert(pairs(self.data_log, self.db_index) =~= old(self)@);
        }

        let r = self.db_index.insert(slice_to_vec(key), IndexEntry { data_offset, data_len });
        proof {
            let entry = IndexEntry { data_offset, data_len };
            le::lemma_u32_le(data_log::MAGIC);
            le::lemma_u32_le(digest::crc32_of(data@));
            assert(log1.len() == log0.len() + 8 + data@.len());
            assert(located(log1, entry));
            assert(value_at(log1, entry) == data@);
            assert forall|k: Seq<u8>| #[trigger] self.db_index@.contains_key(k) implies located(
                log1,
                self.db_index@[k],
            ) by {
                if k != key@ {
                    assert(old(self).db_index@.contains_key(k));
                }
            }
            if r is Ok {
                assert(self@ =~= old(self)@.insert(key@, data@));
            } else {
                assert(self@ =~= old(self)@);
            }
        }
        r
    }

    /// The value stored under `key`, or `None` where the store holds none:
    /// the index is asked for the locator, and the log for the record it
    /// names.
    pub fn get(&self, key: &[u8]) -> (r: Result<Option<Vec<u8>>>)
        requires
            self.wf(),
            key@.len() >= 8,
        ensures
            r matches Ok(found) && match found {
                Some(value) => self@.contains_key(key@) && self@[key@] == value@,
                None => !self@.contains_key(key@),
            },
    {
        let e = match self.db_index.get(key)? {
            Some(e) => e,
            None => {
                return Ok(None);
            },
        };
        Ok(Some(self.data_log.read((e.data_offset, e.data_len))?))
    }

    /// Whether the store holds a value under `key`. Only the index is asked.
    pub fn contains_key(&self, key: &[u8]) -> (r: Result<bool>)
        requires
            self.wf(),
            key@.len() >= 8,
        ensures
            r matches Ok(found) && found == self@.contains_key(key@),
    {
        Ok(self.db_index.get(key)?.is_some())
    }

    /// The number of keys the store holds.
    pub fn len(&self) -> (n: u64)
        requires
            self.wf(),
        ensures
            n == self.index().item_count(),
            n == self@.len(),
    {
        proof {
            self.db_index.lemma_keys();
            assert(self@.dom() =~= self.db_index@.dom());
        }
        self.db_index.len()
    }

    /// Whether the index's page capacity is known: whether an insert has
    /// calibrated it.
    pub fn is_calibrated(&self) -> (known: bool)
        ensures
            known == self.index().calibrated(),
    {
        self.db_index.is_calibrated()
    }

    /// Each journal of a store that is in order, replayed on the bytes its
    /// file held at the last drain, gives the bytes the file is to hold.
    pub proof fn lemma_journals(&self)
        requires
            self.wf(),
        ensures
            replay(self.log().base(), self.log().pending()) == self.log().image(),
            replay(self.index().bases().0, self.index().pending().0) == self.index().images().0,
            replay(self.index().bases().1, self.index().pending().1) == self.index().images().1,
    {
        self.data_log.lemma_journal();
        self.db_index.lemma_journals();
    }

    /// Journals a request to make the log and the index durable.
    pub fn sync(&mut self) -> (r: Result<()>)
        requires
            old(self).wf(),
        ensures
            final(self).wf(),
            r is Ok,
            final(self)@ == old(self)@,
            final(self).log().base() == old(self).log().base(),
            final(self).index().bases() == old(self).index().bases(),
            final(self).log().image() == old(self).log().image(),
            final(self).index().images() == old(self).index().images(),
            final(self).log().pending() == old(self).log().pending().push(IoOp::Sync),
            final(self).index().pending() == (
                old(self).index().pending().0.push(IoOp::Sync),
                old(self).index().pending().1.push(IoOp::Sync),
            ),
    {
        self.data_log.sync()?;
        self.db_index.sync()?;
        assert(self@ =~= old(self)@);
        Ok(())
    }

    /// Hands the journals of the store's three files to the host: those of
    /// the log, of the main page space and of the overflow page space.
    pub fn take_pending(&mut self) -> (ops: (Vec<IoOp>, Vec<IoOp>, Vec<IoOp>))
        requires
            old(self).wf(),
        ensures
            final(self).wf(),
            final(self)@ == old(self)@,
            ops.0@ == old(self).log().pending(),
            ops.1@ == old(self).index().pending().0,
            ops.2@ == old(self).index().pending().1,
            final(self).log().pending() == Seq::<IoOp>::empty(),
            final(self).index().pending() == (Seq::<IoOp>::empty(), Seq::<IoOp>::empty()),
            final(self).log().image() == old(self).log().image(),
            final(self).log().cursor() == old(self).log().cursor(),
            final(self).index().images() == old(self).index().images(),
            final(self).log().base() == final(self).log().image(),
            final(self).index().bases() == final(self).index().images(),
            replay(old(self).log().base(), ops.0@) == final(self).log().image(),
            replay(old(self).index().bases().0, ops.1@) == final(self).index().images().0,
            replay(old(self).index().bases().1, ops.2@) == final(self).index().images().1,
    {
        let log_ops = self.data_log.take_pending();
        let (main_ops, overflow_ops) = self.db_index.take_pending();
        assert(self@ =~= old(self)@);
        (log_ops, main_ops, overflow_ops)
    }
}

} // verus!
