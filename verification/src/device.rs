//! Page frames: fixed 4096-byte slots of a page space, each holding a
//! checksum, a payload length and the payload, an encoded page.

use vstd::prelude::*;
use vstd::pervasive::unreached;
use vstd::slice::slice_subrange;
use crate::digest::crc32_of;
use crate::error::{Error, Result};
use crate::io::{replay, with_write, write_at, IoOp, IO};
use crate::le::{
    filled, get_u32, lemma_u32_le, lemma_u32_le_injective, lemma_u32_zero, put_bytes, put_u32,
    spec_u32_from_le_bytes, spec_u32_to_le_bytes,
};
use crate::page::{
    decode, decode_page, encode, encode_page, lemma_decode_encode, lemma_encode_len,
    parse_entries, Page, PageRef, PageView,
};

verus! {

/// The length of a frame.
pub const FRAME_LEN: usize = 4096;

/// The length of a frame's header: checksum and payload length.
pub const FRAME_HEADER_LEN: usize = 8;

/// The longest payload a frame can hold.
pub const MAX_PAYLOAD_LEN: usize = 4088;

/// What a frame holds, as a reader finds it.
pub enum Slot {
    /// The stored checksum does not match the payload, or the declared
    /// payload length exceeds what a frame can hold.
    Corrupt,
    /// The checksum is in order but the payload encodes no page: the frame
    /// was never written.
    Blank,
    /// The frame holds this page.
    Page(PageView),
}

/// Frame `id` of an image: the 4096 bytes at offset `id * 4096`, with zeros
/// where the image has ended.
pub open spec fn frame_of(image: Seq<u8>, id: int) -> Seq<u8> {
    Seq::new(
        4096,
        |i: int| if id * 4096 + i < image.len() { image[id * 4096 + i] } else { 0u8 },
    )
}

/// Whether frame `id` of an image was never written: whether every byte of
/// it is zero.
pub open spec fn unwritten(image: Seq<u8>, id: int) -> bool {
    forall|i: int| 0 <= i < 4096 ==> #[trigger] frame_of(image, id)[i] == 0u8
}

/// The checksum a frame stores.
pub open spec fn frame_checksum(frame: Seq<u8>) -> u32 {
    spec_u32_from_le_bytes(frame.subrange(0, 4))
}

/// The payload length a frame declares.
pub open spec fn frame_payload_len(frame: Seq<u8>) -> int {
    spec_u32_from_le_bytes(frame.subrange(4, 8)) as int
}

/// What a reader finds in a frame.
pub open spec fn read_frame(frame: Seq<u8>) -> Slot {
    let n = frame_payload_len(frame);
    if n > 4088 {
        Slot::Corrupt
    } else {
        let payload = frame.subrange(8, 8 + n);
        if frame_checksum(frame) != crc32_of(payload) {
            Slot::Corrupt
        } else {
            match decode(payload) {
                Some(p) => Slot::Page(p),
                None => Slot::Blank,
            }
        }
    }
}

/// The bytes written for a page: the checksum of its encoding, the length of
/// its encoding, and its encoding.
pub open spec fn frame_bytes(p: PageView) -> Seq<u8> {
    spec_u32_to_le_bytes(crc32_of(encode(p))) + spec_u32_to_le_bytes(encode(p).len() as u32)
        + encode(p)
}

/// Writing the bytes of a page's frame at the start of slot `id` makes that
/// slot hold the page and leaves every other slot as it was.
pub proof fn lemma_write_frame(image: Seq<u8>, id: int, p: PageView)
    requires
        0 <= id,
        p.encoded_len() <= 4088,
    ensures
        read_frame(frame_of(write_at(image, id * 4096, frame_bytes(p)), id)) == Slot::Page(p),
        forall|other: int|
            0 <= other && other != id ==> #[trigger] frame_of(
                write_at(image, id * 4096, frame_bytes(p)),
                other,
            ) == frame_of(image, other),
{
    let fb = frame_bytes(p);
    let after = write_at(image, id * 4096, fb);
    let payload = encode(p);
    lemma_encode_len(p);
    lemma_decode_encode(p);
    lemma_u32_le(crc32_of(payload));
    lemma_u32_le(payload.len() as u32);
    assert(fb.len() == 8 + payload.len());
    let frame = frame_of(after, id);
    assert(frame.subrange(0, 4) =~= spec_u32_to_le_bytes(crc32_of(payload)));
    assert(frame.subrange(4, 8) =~= spec_u32_to_le_bytes(payload.len() as u32));
    assert(frame.subrange(8, 8 + payload.len() as int) =~= payload);
    assert forall|other: int| 0 <= other && other != id implies #[trigger] frame_of(
        after,
        other,
    ) == frame_of(image, other) by {
        assert(frame_of(after, other) =~= frame_of(image, other));
    }
}

/// A frame whose stored checksum has one byte changed reads as corrupt.
pub proof fn lemma_checksum_damage(frame: Seq<u8>, damaged: Seq<u8>, at: int)
    requires
        frame.len() == 4096,
        damaged.len() == 4096,
        read_frame(frame) !is Corrupt,
        0 <= at < 4,
        damaged[at] != frame[at],
        forall|i: int| 0 <= i < 4096 && i != at ==> damaged[i] == frame[i],
    ensures
        read_frame(damaged) is Corrupt,
{
    let n = frame_payload_len(frame);
    assert(damaged.subrange(4, 8) =~= frame.subrange(4, 8));
    assert(damaged.subrange(8, 8 + n) =~= frame.subrange(8, 8 + n));
    assert(damaged.subrange(0, 4)[at] != frame.subrange(0, 4)[at]);
    if frame_checksum(damaged) == frame_checksum(frame) {
        lemma_u32_le_injective(damaged.subrange(0, 4), frame.subrange(0, 4));
    }
}

/// Whether `buf` is the encoding of a page.
pub fn is_page(buf: &[u8]) -> (ok: bool)
    ensures
        ok == decode(buf@).is_some(),
{
    let len = buf.len();
    if len < 17 {
        return false;
    }
    let nh = get_u32(buf, 0) as usize;
    let ne = get_u32(buf, 4) as usize;
    if buf[8] > 1 || (len - 17) / 4 < nh {
        return false;
    }
    let start = 17 + 4 * nh;
    let ghost whole = parse_entries(buf@.subrange(start as int, len as int), ne as nat);
    assert(decode(buf@).is_some() == whole.is_some());
    let mut pos = start;
    let mut j: usize = 0;
    while j < ne
        invariant
            j <= ne,
            start <= pos <= len,
            len == buf@.len(),
            decode(buf@).is_some() == whole.is_some(),
            whole.is_some() == parse_entries(
                buf@.subrange(pos as int, len as int),
                (ne - j) as nat,
            ).is_some(),
        decreases ne - j,
    {
        let ghost sub = buf@.subrange(pos as int, len as int);
        if len - pos < 8 {
            return false;
        }
        let klen = get_u32(buf, pos) as usize;
        let vlen = get_u32(buf, pos + 4) as usize;
        proof {
            assert(sub.subrange(0, 4) =~= buf@.subrange(pos as int, pos + 4));
            assert(sub.subrange(4, 8) =~= buf@.subrange(pos + 4, pos + 8));
        }
        let room = len - pos - 8;
        if room < klen || room - klen < vlen {
            return false;
        }
        proof {
            assert(sub.subrange(8 + klen + vlen, sub.len() as int) =~= buf@.subrange(
                pos + 8 + klen + vlen,
                len as int,
            ));
        }
        pos = pos + 8 + klen + vlen;
        j += 1;
    }
    proof {
        assert(buf@.subrange(pos as int, len as int).len() == len - pos);
    }
    pos == len
}

/// The page of a read that is known to have found one.
pub(crate) fn found(r: Result<Option<Page>>) -> (page: Page)
    requires
        r matches Ok(Some(_)),
    ensures
        r matches Ok(Some(p)) && page == p,
{
    match r {
        Ok(Some(page)) => page,
        _ => unreached(),
    }
}

/// A page space: a sequence of frames in one positioned-access byte store.
pub struct Device {
    io: IO,
}

impl Device {
    /// The bytes of the page space.
    pub closed spec fn image(&self) -> Seq<u8> {
        self.io@
    }

    /// The journal of the underlying byte store.
    pub closed spec fn pending(&self) -> Seq<IoOp> {
        self.io.pending()
    }

    /// The bytes of the page space as they stood when the journal was last
    /// drained, or when the page space was opened.
    pub closed spec fn base(&self) -> Seq<u8> {
        self.io.base()
    }

    /// The underlying byte store's journal replays to its image.
    pub closed spec fn wf(&self) -> bool {
        self.io.wf()
    }

    /// Replaying the journal on the bytes of the last drain gives the
    /// current bytes.
    pub proof fn lemma_journal(&self)
        requires
            self.wf(),
        ensures
            replay(self.base(), self.pending()) == self.image(),
    {
    }

    /// What a reader finds in frame `id`.
    pub open spec fn slot(&self, id: u64) -> Slot {
        read_frame(frame_of(self.image(), id as int))
    }

    /// Whether frame `id` lies wholly inside the addressable range.
    pub open spec fn in_range(id: u64) -> bool {
        (id + 1) * 4096 <= usize::MAX
    }

    /// A page space over the given byte store.
    pub fn new(io: IO) -> (device: Device)
        requires
            io.wf(),
        ensures
            device.wf(),
            device.image() == io@,
            device.base() == io.base(),
            device.pending() == io.pending(),
    {
        Device { io }
    }

    /// Whether frame `id` lies wholly inside the addressable range, so that
    /// a write to it can succeed.
    pub fn can_hold(id: u64) -> (ok: bool)
        ensures
            ok == Self::in_range(id),
    {
        id < (usize::MAX / FRAME_LEN) as u64
    }

    /// Frame `id` as a reader sees it: 4096 bytes, zero where the image has
    /// ended.
    fn read_frame_bytes(&self, id: u64) -> (buf: Vec<u8>)
        ensures
            buf@ == frame_of(self.image(), id as int),
    {
        let mut buf = filled(0u8, FRAME_LEN);
        let _ = self.io.len();
        if id <= u64::MAX / FRAME_LEN as u64 {
            let _ = self.io.read(&mut buf, id * FRAME_LEN as u64);
        }
        assert(buf@ =~= frame_of(self.image(), id as int));
        buf
    }

    /// Writes `page` to frame `id`: the checksum of its encoding, the
    /// encoding's length and the encoding, in one positioned write at offset
    /// `id * 4096`. Fails, changing nothing, with [`Error::PageTooLarge`]
    /// where the encoding exceeds 4088 bytes and else with [`Error::IO`]
    /// where the frame lies outside the addressable range.
    pub fn write_page(&mut self, id: u64, page: Page) -> (r: Result<()>)
        requires
            old(self).wf(),
        ensures
            final(self).wf(),
            final(self).base() == old(self).base(),
            match r {
                Ok(_) => {
                    &&& page@.encoded_len() <= 4088
                    &&& Self::in_range(id)
                    &&& final(self).image() == write_at(
                        old(self).image(),
                        id * 4096,
                        frame_bytes(page@),
                    )
                    &&& final(self).slot(id) == Slot::Page(page@)
                    &&& forall|other: u64|
                        other != id ==> #[trigger] final(self).slot(other) == old(self).slot(other)
                    &&& with_write(
                        old(self).pending(),
                        final(self).pending(),
                        id * 4096,
                        frame_bytes(page@),
                    )
                },
                Err(e) => {
                    &&& final(self).image() == old(self).image()
                    &&& final(self).pending() == old(self).pending()
                    &&& e == (if page@.encoded_len() > 4088 {
                        Error::PageTooLarge
                    } else {
                        Error::IO
                    })
                    &&& page@.encoded_len() > 4088 || !Self::in_range(id)
                },
            },
    {
        let fits = match page.encoded_len() {
            Some(n) => n <= MAX_PAYLOAD_LEN,
            None => false,
        };
        if !fits {
            return Err(Error::PageTooLarge);
        }
        if !Self::can_hold(id) {
            return Err(Error::IO);
        }
        let data = encode_page(&page);
        proof {
            lemma_encode_len(page@);
        }
        let crc = crc32fast::hash(data.as_slice());
        let mut out: Vec<u8> = Vec::new();
        put_u32(&mut out, crc);
        put_u32(&mut out, data.len() as u32);
        put_bytes(&mut out, data.as_slice());
        assert(out@ =~= frame_bytes(page@));
        proof {
            lemma_u32_le(crc);
            lemma_u32_le(data.len() as u32);
            lemma_write_frame(old(self).image(), id as int, page@);
        }
        let r = self.io.write(out.as_slice(), id * FRAME_LEN as u64);
        assert(r is Ok);
        assert forall|other: u64| other != id implies #[trigger] self.slot(other) == old(
            self,
        ).slot(other) by {
            assert(frame_of(self.image(), other as int) == frame_of(
                old(self).image(),
                other as int,
            ));
        }
        Ok(())
    }

    /// Validates frame `id` in `buf` and finds its payload: the end of the
    /// payload within `buf`, or `None` where the frame is corrupt.
    fn check_frame(buf: &Vec<u8>) -> (end: Option<usize>)
        requires
            buf@.len() == 4096,
        ensures
            match end {
                Some(end) => {
                    &&& read_frame(buf@) !is Corrupt
                    &&& end == 8 + frame_payload_len(buf@)
                    &&& end <= 4096
                },
                None => read_frame(buf@) is Corrupt,
            },
            (forall|i: int| 0 <= i < 4096 ==> #[trigger] buf@[i] == 0u8) ==> end == Some(8usize),
    {
        let stored_crc = get_u32(buf.as_slice(), 0);
        let data_len = get_u32(buf.as_slice(), 4) as usize;
        proof {
            if forall|i: int| 0 <= i < 4096 ==> #[trigger] buf@[i] == 0u8 {
                lemma_u32_zero(buf@.subrange(0, 4));
                lemma_u32_zero(buf@.subrange(4, 8));
            }
        }
        if data_len > MAX_PAYLOAD_LEN {
            return None;
        }
        let calc_crc = crc32fast::hash(
            slice_subrange(buf.as_slice(), FRAME_HEADER_LEN, FRAME_HEADER_LEN + data_len),
        );
        if stored_crc != calc_crc {
            return None;
        }
        Some(FRAME_HEADER_LEN + data_len)
    }

    /// Reads frame `id`: its page, `None` where the frame was never
    /// written, and [`Error::ChecksumMismatch`] where it is corrupt.
    pub fn read_page(&self, id: u64) -> (r: Result<Option<Page>>)
        ensures
            match self.slot(id) {
                Slot::Corrupt => r == Err::<Option<Page>, Error>(Error::ChecksumMismatch),
                Slot::Blank => r matches Ok(None),
                Slot::Page(p) => r matches Ok(Some(page)) && page@ == p,
            },
            unwritten(self.image(), id as int) ==> r matches Ok(None),
    {
        let buf = self.read_frame_bytes(id);
        match Self::check_frame(&buf) {
            None => Err(Error::ChecksumMismatch),
            Some(end) => {
                match decode_page(slice_subrange(buf.as_slice(), FRAME_HEADER_LEN, end)) {
                    Ok(page) => Ok(Some(page)),
                    Err(_) => Ok(None),
                }
            },
        }
    }

    /// Reads frame `id` without decoding it: a view over the validated
    /// payload that answers lookups as the decoded page would.
    pub fn read_page_ref(&self, id: u64) -> (r: Result<Option<PageRef>>)
        ensures
            match self.slot(id) {
                Slot::Corrupt => r == Err::<Option<PageRef>, Error>(Error::ChecksumMismatch),
                Slot::Blank => r matches Ok(None),
                Slot::Page(p) => r matches Ok(Some(page_ref)) && {
                    &&& page_ref.wf()
                    &&& page_ref@ == p
                    &&& page_ref.buf@ == frame_of(self.image(), id as int)
                    &&& page_ref.data_range.start == 8
                    &&& page_ref.data_range.end == 8 + frame_payload_len(page_ref.buf@)
                },
            },
            unwritten(self.image(), id as int) ==> r matches Ok(None),
    {
        let buf = self.read_frame_bytes(id);
        match Self::check_frame(&buf) {
            None => Err(Error::ChecksumMismatch),
            Some(end) => {
                if is_page(slice_subrange(buf.as_slice(), FRAME_HEADER_LEN, end)) {
                    Ok(Some(PageRef { buf, data_range: FRAME_HEADER_LEN..end }))
                } else {
                    Ok(None)
                }
            },
        }
    }

    /// Journals a request to make every frame written so far durable.
    pub fn sync(&mut self) -> (r: Result<()>)
        requires
            old(self).wf(),
        ensures
            final(self).wf(),
            r is Ok,
            final(self).image() == old(self).image(),
            final(self).base() == old(self).base(),
            final(self).pending() == old(self).pending().push(IoOp::Sync),
    {
        self.io.flush()
    }

    /// Hands the journal of the page space to the host: the positioned
    /// writes and sync requests since the last drain, oldest first.
    pub fn take_pending(&mut self) -> (ops: Vec<IoOp>)
        requires
            old(self).wf(),
        ensures
            final(self).wf(),
            ops@ == old(self).pending(),
            replay(old(self).base(), ops@) == final(self).image(),
            final(self).image() == old(self).image(),
            final(self).base() == final(self).image(),
            final(self).pending() == Seq::<IoOp>::empty(),
    {
        self.io.take_pending()
    }
}

} // verus!
