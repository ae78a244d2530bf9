//! The value log: an append-only sequence of records, each a sentinel, the
//! checksum of the payload, and the payload.

use vstd::prelude::*;
use vstd::slice::{slice_subrange, slice_to_vec};
use crate::digest::crc32_of;
use crate::error::{Error, Result};
use crate::io::{read_at, replay, with_write, IoOp, IO};
use crate::le::{
    filled, get_u32, lemma_u32_le, lemma_u32_le_injective, put_bytes, put_u32,
    spec_u32_from_le_bytes, spec_u32_to_le_bytes,
};

verus! {

/// The sentinel every record starts with.
pub const MAGIC: u32 = 0x34655652;

/// The length of a record's header: sentinel and checksum.
pub const HEADER_LEN: u32 = 8;

/// The bytes of the record that frames `payload`.
pub open spec fn record_bytes(payload: Seq<u8>) -> Seq<u8> {
    spec_u32_to_le_bytes(MAGIC) + spec_u32_to_le_bytes(crc32_of(payload)) + payload
}

/// The `len` bytes a reader finds at `offset`: those of the image, and zeros
/// past its end.
pub open spec fn bytes_at(image: Seq<u8>, offset: int, len: nat) -> Seq<u8> {
    read_at(image, offset, Seq::new(len, |i: int| 0u8))
}

/// What reading the `len` bytes at `offset` as a record gives: its payload,
/// or the reason why the bytes are no record.
pub open spec fn read_record(image: Seq<u8>, offset: int, len: nat) -> Result<Seq<u8>> {
    let buf = bytes_at(image, offset, len);
    if len < 8 {
        Err(Error::LogReadFailed)
    } else if spec_u32_from_le_bytes(buf.subrange(0, 4)) != MAGIC {
        Err(Error::LogMagicMismatch)
    } else if spec_u32_from_le_bytes(buf.subrange(4, 8)) != crc32_of(buf.subrange(8, len as int)) {
        Err(Error::LogCrcMismatch)
    } else {
        Ok(buf.subrange(8, len as int))
    }
}

/// A record appended to an image is read back, payload for payload, from
/// where it was appended.
pub proof fn lemma_read_appended(image: Seq<u8>, payload: Seq<u8>)
    ensures
        read_record(image + record_bytes(payload), image.len() as int, 8 + payload.len()) == Ok::<
            Seq<u8>,
            Error,
        >(payload),
{
    lemma_u32_le(MAGIC);
    lemma_u32_le(crc32_of(payload));
    let after = image + record_bytes(payload);
    let buf = bytes_at(after, image.len() as int, 8 + payload.len());
    assert(buf =~= record_bytes(payload));
    assert(buf.subrange(0, 4) =~= spec_u32_to_le_bytes(MAGIC));
    assert(buf.subrange(4, 8) =~= spec_u32_to_le_bytes(crc32_of(payload)));
    assert(buf.subrange(8, 8 + payload.len() as int) =~= payload);
}

/// What lies wholly inside an image is read the same after the image has
/// grown.
pub proof fn lemma_read_stable(image: Seq<u8>, more: Seq<u8>, offset: int, len: nat)
    requires
        0 <= offset,
        offset + len <= image.len(),
    ensures
        read_record(image + more, offset, len) == read_record(image, offset, len),
{
    assert(bytes_at(image + more, offset, len) =~= bytes_at(image, offset, len));
}

/// A record whose stored checksum has one byte changed is read as
/// [`Error::LogCrcMismatch`], and one whose sentinel has one byte changed as
/// [`Error::LogMagicMismatch`].
pub proof fn lemma_header_damage(image: Seq<u8>, damaged: Seq<u8>, offset: int, len: nat, at: int)
    requires
        0 <= offset,
        offset + len <= image.len(),
        read_record(image, offset, len) is Ok,
        damaged.len() == image.len(),
        offset <= at < offset + 8,
        damaged[at] != image[at],
        forall|i: int| 0 <= i < image.len() && i != at ==> damaged[i] == image[i],
    ensures
        at < offset + 4 ==> read_record(damaged, offset, len) == Err::<Seq<u8>, Error>(
            Error::LogMagicMismatch,
        ),
        at >= offset + 4 ==> read_record(damaged, offset, len) == Err::<Seq<u8>, Error>(
            Error::LogCrcMismatch,
        ),
{
    let a = bytes_at(image, offset, len);
    let b = bytes_at(damaged, offset, len);
    assert(a.subrange(8, len as int) =~= b.subrange(8, len as int));
    if at < offset + 4 {
        assert(a.subrange(0, 4)[at - offset] != b.subrange(0, 4)[at - offset]);
        if spec_u32_from_le_bytes(a.subrange(0, 4)) == spec_u32_from_le_bytes(b.subrange(0, 4)) {
            lemma_u32_le_injective(a.subrange(0, 4), b.subrange(0, 4));
        }
    } else {
        assert(a.subrange(0, 4) =~= b.subrange(0, 4));
        assert(a.subrange(4, 8)[at - offset - 4] != b.subrange(4, 8)[at - offset - 4]);
        if spec_u32_from_le_bytes(a.subrange(4, 8)) == spec_u32_from_le_bytes(b.subrange(4, 8)) {
            lemma_u32_le_injective(a.subrange(4, 8), b.subrange(4, 8));
        }
    }
}

/// The append-only value log over one positioned-access byte store.
pub struct DataLog {
    io: IO,
    cursor: u64,
}

impl DataLog {
    /// The bytes of the log.
    pub closed spec fn image(&self) -> Seq<u8> {
        self.io@
    }

    /// Where the next record goes.
    pub closed spec fn cursor(&self) -> u64 {
        self.cursor
    }

    /// The journal of the underlying byte store.
    pub closed spec fn pending(&self) -> Seq<IoOp> {
        self.io.pending()
    }

    /// The bytes of the log as they stood when the journal was last drained,
    /// or when the log was opened.
    pub closed spec fn base(&self) -> Seq<u8> {
        self.io.base()
    }

    /// Replaying the journal on the bytes of the last drain gives the
    /// current bytes.
    pub proof fn lemma_journal(&self)
        requires
            self.wf(),
        ensures
            replay(self.base(), self.pending()) == self.image(),
    {
    }

    /// The log is in order: its journal replays to its image, and its cursor
    /// stands at the end of the image.
    pub closed spec fn wf(&self) -> bool {
        &&& self.io.wf()
        &&& self.cursor == self.io@.len()
    }

    /// In a log that is in order the cursor stands at the end of the image.
    pub proof fn lemma_cursor(&self)
        requires
            self.wf(),
        ensures
            self.cursor() == self.image().len(),
    {
    }

    /// Opens the log over a byte store, with the cursor at its end.
    pub fn open(io: IO) -> (r: Result<DataLog>)
        requires
            io.wf(),
        ensures
            r matches Ok(log) && log.wf() && log.image() == io@ && log.cursor() == io@.len()
                && log.pending() == io.pending() && log.base() == io.base(),
    {
        // Get the current tail position.
        let cursor = io.len() as u64;
        Ok(DataLog { io, cursor })
    }

    /// Appends `data` as one record at the cursor and returns where the
    /// record starts and how long it is, header included. Fails, changing
    /// nothing, with [`Error::LogAppendFailed`] where the record's length
    /// does not fit 32 bits, and else with [`Error::IO`] where the record
    /// would end outside the addressable range.
    pub fn append(&mut self, data: &[u8]) -> (r: Result<(u64, u32)>)
        requires
            old(self).wf(),
        ensures
            final(self).wf(),
            final(self).base() == old(self).base(),
            r is Ok <==> 8 + data@.len() <= u32::MAX && old(self).cursor() + 8 + data@.len()
                <= usize::MAX,
            match r {
                Ok((offset, len)) => {
                    &&& offset == old(self).cursor()
                    &&& len == 8 + data@.len()
                    &&& final(self).image() == old(self).image() + record_bytes(data@)
                    &&& read_record(final(self).image(), offset as int, len as nat) == Ok::<
                        Seq<u8>,
                        Error,
                    >(data@)
                    &&& final(self).cursor() == offset + len
                    &&& with_write(
                        old(self).pending(),
                        final(self).pending(),
                        offset as int,
                        record_bytes(data@),
                    )
                },
                Err(e) => {
                    &&& final(self).image() == old(self).image()
                    &&& final(self).cursor() == old(self).cursor()
                    &&& final(self).pending() == old(self).pending()
                    &&& e == (if 8 + data@.len() > u32::MAX {
                        Error::LogAppendFailed
                    } else {
                        Error::IO
                    })
                },
            },
    {
        if data.len() > (u32::MAX - HEADER_LEN) as usize {
            return Err(Error::LogAppendFailed);
        }
        let data_len = data.len() as u32;

        let crc = crc32fast::hash(data);
        let mut buf: Vec<u8> = Vec::new();
        put_u32(&mut buf, MAGIC);
        put_u32(&mut buf, crc);
        put_bytes(&mut buf, data);
        proof {
            lemma_u32_le(MAGIC);
            lemma_u32_le(crc);
            assert(buf@ =~= record_bytes(data@));
        }

        let offset = self.cursor;
        self.io.write(buf.as_slice(), offset)?;
        proof {
            assert(self.io@ =~= old(self).io@ + record_bytes(data@));
            lemma_read_appended(old(self).io@, data@);
        }
        self.cursor = self.cursor + HEADER_LEN as u64 + data_len as u64;

        Ok((offset, HEADER_LEN + data_len))
    }

    /// Reads the record at a locator: `k.1` bytes at offset `k.0`. Returns
    /// the payload, or [`Error::LogReadFailed`] where the locator is shorter
    /// than a header, [`Error::LogMagicMismatch`] where the bytes do not
    /// start with the sentinel, and [`Error::LogCrcMismatch`] where the
    /// stored checksum is not that of the payload.
    pub fn read(&self, k: (u64, u32)) -> (r: Result<Vec<u8>>)
        ensures
            match read_record(self.image(), k.0 as int, k.1 as nat) {
                Ok(payload) => r matches Ok(data) && data@ == payload,
                Err(e) => r == Err::<Vec<u8>, Error>(e),
            },
    {
        let (offset, len) = k;
        if len < HEADER_LEN {
            return Err(Error::LogReadFailed);
        }
        let mut buf = filled(0u8, len as usize);
        let _ = self.io.read(&mut buf, offset);
        assert(buf@ =~= bytes_at(self.image(), offset as int, len as nat));

        let magic = get_u32(buf.as_slice(), 0);
        if magic != MAGIC {
            return Err(Error::LogMagicMismatch);
        }
        let crc_stored = get_u32(buf.as_slice(), 4);
        let payload = slice_subrange(buf.as_slice(), 8, len as usize);
        let crc_calculated = crc32fast::hash(payload);
        if crc_stored != crc_calculated {
            return Err(Error::LogCrcMismatch);
        }
        Ok(slice_to_vec(payload))
    }

    /// Journals a request to make every record appended so far durable.
    pub fn sync(&mut self) -> (r: Result<()>)
        requires
            old(self).wf(),
        ensures
            final(self).wf(),
            r is Ok,
            final(self).image() == old(self).image(),
            final(self).base() == old(self).base(),
            final(self).cursor() == old(self).cursor(),
            final(self).pending() == old(self).pending().push(IoOp::Sync),
    {
        self.io.flush()
    }

    /// Hands the journal of the log to the host: the positioned writes and
    /// sync requests since the last drain, oldest first.
    pub fn take_pending(&mut self) -> (ops: Vec<IoOp>)
        requires
            old(self).wf(),
        ensures
            final(self).wf(),
            ops@ == old(self).pending(),
            replay(old(self).base(), ops@) == final(self).image(),
            final(self).image() == old(self).image(),
            final(self).base() == final(self).image(),
            final(self).cursor() == old(self).cursor(),
            final(self).pending() == Seq::<IoOp>::empty(),
    {
        self.io.take_pending()
    }
}

} // verus!
