//! A positioned-read, positioned-write byte store.
//!
//! An [`IO`] holds the image of one file in memory. Reads are served from the
//! image. Every write and every flush is also recorded, in order, in a journal
//! that the host drains with [`IO::take_pending`] and replays on the file, so
//! that the file receives the same positioned writes at the same offsets.

use vstd::prelude::*;
use vstd::slice::slice_to_vec;
use crate::error::{Error, Result};

verus! {

/// One journalled effect on the backing file.
#[derive(Debug)]
pub enum IoOp {
    /// Write `data` at byte `offset`.
    Write { offset: u64, data: Vec<u8> },
    /// Force everything written so far to stable storage.
    Sync,
}

/// The image after writing `data` at `offset`: bytes under the write are
/// replaced, a gap between the old end and `offset` reads as zeros, and an
/// empty write changes nothing.
pub open spec fn write_at(image: Seq<u8>, offset: int, data: Seq<u8>) -> Seq<u8> {
    if data.len() == 0 {
        image
    } else {
        Seq::new(
            if image.len() >= offset + data.len() { image.len() } else { (offset + data.len()) as nat },
            |i: int|
                if offset <= i < offset + data.len() {
                    data[i - offset]
                } else if i < image.len() {
                    image[i]
                } else {
                    0u8
                },
        )
    }
}

/// What a buffer holds after a positioned read at `offset`: image bytes where
/// the image has them, the buffer's old bytes past the image's end.
pub open spec fn read_at(image: Seq<u8>, offset: int, buf: Seq<u8>) -> Seq<u8> {
    Seq::new(
        buf.len(),
        |i: int| if offset + i < image.len() { image[offset + i] } else { buf[i] },
    )
}

/// Whether a journalled operation is the write of `bytes` at `offset`.
pub open spec fn is_write(op: IoOp, offset: int, bytes: Seq<u8>) -> bool {
    op matches IoOp::Write { offset: at, data } && at == offset && data@ == bytes
}

/// Whether journal `after` is journal `before` with one more operation, the
/// write of `bytes` at `offset`.
pub open spec fn with_write(before: Seq<IoOp>, after: Seq<IoOp>, offset: int, bytes: Seq<u8>) -> bool {
    &&& after.len() == before.len() + 1
    &&& after.drop_last() == before
    &&& is_write(after.last(), offset, bytes)
}

/// Whether journal `after` begins with journal `before`: whether it is
/// `before` with further operations recorded.
pub open spec fn extends(before: Seq<IoOp>, after: Seq<IoOp>) -> bool {
    before.len() <= after.len() && after.take(before.len() as int) == before
}

/// A journal extends itself, and a journal with one more write extends the
/// journal without it.
pub proof fn lemma_extends(before: Seq<IoOp>, after: Seq<IoOp>)
    requires
        after == before || (after.len() == before.len() + 1 && after.drop_last() == before),
    ensures
        extends(before, after),
{
    assert(after.take(before.len() as int) =~= before);
}

/// A journal that extends an extension of a journal extends that journal.
pub proof fn lemma_extends_trans(a: Seq<IoOp>, b: Seq<IoOp>, c: Seq<IoOp>)
    requires
        extends(a, b),
        extends(b, c),
    ensures
        extends(a, c),
{
    assert(c.take(a.len() as int) =~= b.take(a.len() as int));
}

/// The effect of one journalled operation on a file image.
pub open spec fn apply_op(image: Seq<u8>, op: IoOp) -> Seq<u8> {
    match op {
        IoOp::Write { offset, data } => write_at(image, offset as int, data@),
        IoOp::Sync => image,
    }
}

/// The effect of a journal, replayed in order, on a file image.
pub open spec fn replay(image: Seq<u8>, ops: Seq<IoOp>) -> Seq<u8>
    decreases ops.len(),
{
    if ops.len() == 0 {
        image
    } else {
        apply_op(replay(image, ops.drop_last()), ops.last())
    }
}

/// The in-memory image of a file, with the journal of effects that the file
/// itself has not yet received.
pub struct IO {
    image: Vec<u8>,
    pending: Vec<IoOp>,
    base: Ghost<Seq<u8>>,
}

impl View for IO {
    type V = Seq<u8>;

    /// The current contents of the image.
    closed spec fn view(&self) -> Seq<u8> {
        self.image@
    }
}

impl IO {
    /// The journal: the effects recorded since the last drain, oldest first.
    pub closed spec fn pending(&self) -> Seq<IoOp> {
        self.pending@
    }

    /// The image as it stood at the last drain.
    pub closed spec fn base(&self) -> Seq<u8> {
        self.base@
    }

    /// Replaying the journal on the last drained image gives the current one.
    pub open spec fn wf(&self) -> bool {
        replay(self.base(), self.pending()) == self@
    }

    /// Wraps the bytes a file holds when it is opened.
    pub fn new(image: Vec<u8>) -> (io: IO)
        ensures
            io@ == image@,
            io.base() == image@,
            io.pending() == Seq::<IoOp>::empty(),
            io.wf(),
    {
        IO { base: Ghost(image@), image, pending: Vec::new() }
    }

    /// The length of the image in bytes.
    pub fn len(&self) -> (n: usize)
        ensures
            n == self@.len(),
    {
        self.image.len()
    }

    /// The image's bytes.
    pub fn bytes(&self) -> (b: &[u8])
        ensures
            b@ == self@,
    {
        self.image.as_slice()
    }

    /// Positioned read: fills `buf` from the image starting at `offset`.
    /// Positions past the end of the image are left as they were.
    pub fn read(&self, buf: &mut Vec<u8>, offset: u64) -> (r: Result<()>)
        ensures
            r is Ok,
            final(buf)@ == read_at(self@, offset as int, old(buf)@),
    {
        let len = self.image.len();
        let n = buf.len();
        if offset < len as u64 {
            let start = offset as usize;
            let avail = len - start;
            let count = if avail < n { avail } else { n };
            let mut i: usize = 0;
            while i < count
                invariant
                    i <= count <= n,
                    count <= len - start,
                    start == offset,
                    len == self.image@.len(),
                    buf@.len() == n == old(buf)@.len(),
                    forall|j: int| 0 <= j < i ==> buf@[j] == self.image@[start + j],
                    forall|j: int| i <= j < n ==> buf@[j] == old(buf)@[j],
                decreases count - i,
            {
                buf.set(i, self.image[start + i]);
                i += 1;
            }
        }
        assert(buf@ =~= read_at(self@, offset as int, old(buf)@));
        Ok(())
    }

    /// Positioned write: replaces the image's bytes at `offset` with `buf`,
    /// growing the image (zero-filled) where the write reaches past its end,
    /// and journals the write. Fails, changing nothing, exactly when the
    /// write would end beyond the largest addressable byte.
    pub fn write(&mut self, buf: &[u8], offset: u64) -> (r: Result<()>)
        requires
            old(self).wf(),
        ensures
            final(self).wf(),
            final(self).base() == old(self).base(),
            r is Ok <==> offset + buf@.len() <= usize::MAX,
            r is Ok ==> {
                &&& final(self)@ == write_at(old(self)@, offset as int, buf@)
                &&& with_write(old(self).pending(), final(self).pending(), offset as int, buf@)
            },
            r is Err ==> {
                &&& r == Err::<(), Error>(Error::IO)
                &&& final(self)@ == old(self)@
                &&& final(self).pending() == old(self).pending()
            },
    {
        let n = buf.len();
        if offset > (usize::MAX - n) as u64 {
            return Err(Error::IO);
        }
        let start = offset as usize;
        let data = slice_to_vec(buf);
        if n > 0 {
            let end = start + n;
            let ghost before = self.image@;
            if self.image.len() < end {
                let old_len = self.image.len();
                let mut k: usize = old_len;
                while k < end
                    invariant
                        old_len <= k <= end,
                        self.pending == old(self).pending,
                        self.base == old(self).base,
                        self.image@.len() == k,
                        self.image@.subrange(0, old_len as int) == before,
                        forall|j: int| old_len <= j < k ==> self.image@[j] == 0u8,
                    decreases end - k,
                {
                    self.image.push(0u8);
                    k += 1;
                }
            }
            let mut i: usize = 0;
            while i < n
                invariant
                    i <= n,
                    n == buf@.len(),
                    start + n == end,
                    self.pending == old(self).pending,
                    self.base == old(self).base,
                    end <= self.image@.len(),
                    self.image@.len() == (if before.len() >= end { before.len() } else { end as nat }),
                    forall|j: int| 0 <= j < start + i && j < self.image@.len() ==> self.image@[j] == write_at(before, start as int, buf@)[j],
                    forall|j: int| start + i <= j < self.image@.len() ==> self.image@[j] == (if j < before.len() { before[j] } else { 0u8 }),
                decreases n - i,
            {
                self.image.set(start + i, buf[i]);
                i += 1;
            }
            assert(self.image@ =~= write_at(before, start as int, buf@));
        }
        self.pending.push(IoOp::Write { offset, data });
        proof {
            assert(self.pending@.drop_last() =~= old(self).pending@);
        }
        Ok(())
    }

    /// Journals a request to make everything written so far durable.
    pub fn flush(&mut self) -> (r: Result<()>)
        requires
            old(self).wf(),
        ensures
            final(self).wf(),
            r is Ok,
            final(self)@ == old(self)@,
            final(self).base() == old(self).base(),
            final(self).pending() == old(self).pending().push(IoOp::Sync),
    {
        self.pending.push(IoOp::Sync);
        proof {
            assert(self.pending@.drop_last() =~= old(self).pending@);
        }
        Ok(())
    }

    /// Hands the journal to the host and starts a new one from the current
    /// image. Replaying the returned operations, in order, on the file as it
    /// stood at the previous drain brings the file to the current image.
    pub fn take_pending(&mut self) -> (ops: Vec<IoOp>)
        requires
            old(self).wf(),
        ensures
            final(self).wf(),
            ops@ == old(self).pending(),
            replay(old(self).base(), ops@) == final(self)@,
            final(self)@ == old(self)@,
            final(self).base() == final(self)@,
            final(self).pending() == Seq::<IoOp>::empty(),
    {
        let mut ops: Vec<IoOp> = Vec::new();
        ops.append(&mut self.pending);
        self.base = Ghost(self.image@);
        ops
    }
}

} // verus!
