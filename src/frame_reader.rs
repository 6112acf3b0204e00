//! Reads frames back from the bytes of a file, block by block.
use vstd::prelude::*;

use crate::frame::{
    crc32, crc32_of, header_bytes, header_for, lemma_header_round_trip, parse_header, FrameType,
    Header, BLOCK_LEN, HEADER_LEN,
};
use crate::frame_writer::{
    block_len_after, frame_bytes, frame_offset_in_block, max_frame_len, padding_len, zeros,
};
use vstd::arithmetic::div_mod::{lemma_fundamental_div_mod, lemma_mod_multiples_vanish};

verus! {

/// Why no frame could be read.
#[derive(Clone, Copy, Debug, PartialEq, Eq, Structural)]
pub enum ReadFrameError {
    /// The type byte is invalid, the declared length overflows the block, or
    /// the checksum does not match. The rest of the block is skipped.
    Corruption,
    /// The next frame is not entirely there (yet).
    NotAvailable,
}

/// The outcome of one frame read.
pub enum FrameRead {
    Frame(FrameType, Seq<u8>),
    Corruption,
    NotAvailable,
}

/// The start of the block after the one that holds `pos`.
pub open spec fn next_block(pos: int) -> int {
    pos - pos % (BLOCK_LEN as int) + BLOCK_LEN
}

/// Where the frame read from `pos` starts: `pos`, or the next block when the
/// rest of the block at `pos` is too short for a header (padding).
pub open spec fn frame_start(pos: int) -> int {
    if BLOCK_LEN - pos % (BLOCK_LEN as int) < HEADER_LEN {
        next_block(pos)
    } else {
        pos
    }
}

/// What reading a frame at `pos` of `bytes` gives, and where reading goes on.
pub open spec fn read_frame_at(bytes: Seq<u8>, pos: int) -> (FrameRead, int) {
    let s = frame_start(pos);
    if bytes.len() < s + HEADER_LEN {
        (FrameRead::NotAvailable, pos)
    } else {
        match parse_header(bytes.subrange(s, s + HEADER_LEN)) {
            None => (FrameRead::Corruption, next_block(s)),
            Some(h) => {
                let e = s + HEADER_LEN + h.len;
                if e > next_block(s) {
                    (FrameRead::Corruption, next_block(s))
                } else if bytes.len() < e {
                    (FrameRead::NotAvailable, pos)
                } else if crc32_of(bytes.subrange(s + HEADER_LEN, e)) != h.checksum {
                    (FrameRead::Corruption, next_block(s))
                } else {
                    (FrameRead::Frame(h.frame_type, bytes.subrange(s + HEADER_LEN, e)), e)
                }
            },
        }
    }
}

/// Reads frames from the bytes of one file.
pub struct FrameReader {
    bytes: Vec<u8>,
    pos: usize,
}

impl FrameReader {
    /// The position stays within a block past the bytes, and there is room to compute it.
    pub closed spec fn wf(&self) -> bool {
        &&& self.bytes@.len() + 2 * BLOCK_LEN <= usize::MAX
        &&& self.pos <= self.bytes@.len() + BLOCK_LEN
    }

    /// The bytes being read.
    pub closed spec fn bytes(&self) -> Seq<u8> {
        self.bytes@
    }

    /// Where the next read starts.
    pub closed spec fn pos(&self) -> int {
        self.pos as int
    }

    /// A reader at the start of `bytes`.
    pub fn open(bytes: Vec<u8>) -> (r: FrameReader)
        requires
            bytes@.len() + 2 * BLOCK_LEN <= usize::MAX,
        ensures
            r.wf(),
            r.bytes() == bytes@,
            r.pos() == 0,
    {
        FrameReader { bytes, pos: 0 }
    }

    /// Reads the next frame. On `Corruption` the reader moves to the next
    /// block; on `NotAvailable` it stays where it is.
    pub fn read_frame(&mut self) -> (r: Result<(FrameType, Vec<u8>), ReadFrameError>)
        requires
            old(self).wf(),
        ensures
            final(self).wf(),
            0 <= final(self).pos() <= final(self).bytes().len() + BLOCK_LEN,
            final(self).bytes() == old(self).bytes(),
            final(self).pos() == read_frame_at(old(self).bytes(), old(self).pos()).1,
            match read_frame_at(old(self).bytes(), old(self).pos()).0 {
                FrameRead::Frame(t, p) => r matches Ok((ty, out)) && ty == t && out@ == p,
                FrameRead::Corruption => r == Err::<(FrameType, Vec<u8>), _>(ReadFrameError::Corruption),
                FrameRead::NotAvailable => r == Err::<(FrameType, Vec<u8>), _>(ReadFrameError::NotAvailable),
            },
    {
        let len = self.bytes.len();
        if self.pos >= len {
            return Err(ReadFrameError::NotAvailable);
        }
        let in_block = self.pos % BLOCK_LEN;
        let start = if BLOCK_LEN - in_block < HEADER_LEN {
            self.pos - in_block + BLOCK_LEN
        } else {
            self.pos
        };
        if len < HEADER_LEN || start > len - HEADER_LEN {
            return Err(ReadFrameError::NotAvailable);
        }
        let block_end = start - start % BLOCK_LEN + BLOCK_LEN;
        let header = match Header::deserialize(self.bytes.as_slice(), start) {
            Some(header) => header,
            None => {
                self.pos = block_end;
                return Err(ReadFrameError::Corruption);
            },
        };
        let frame_start = start + HEADER_LEN;
        let frame_end = frame_start + header.len();
        if frame_end > block_end {
            self.pos = block_end;
            return Err(ReadFrameError::Corruption);
        }
        if frame_end > len {
            return Err(ReadFrameError::NotAvailable);
        }
        let payload = &self.bytes.as_slice()[frame_start..frame_end];
        if !header.check(payload) {
            self.pos = block_end;
            return Err(ReadFrameError::Corruption);
        }
        self.pos = frame_end;
        Ok((header.frame_type, vstd::slice::slice_to_vec(payload)))
    }
}

/// Reading a frame only looks at the bytes from where the frame starts to
/// where it ends: bytes outside that range, in particular in other blocks,
/// do not change the read.
pub proof fn lemma_read_frame_local(bytes: Seq<u8>, bytes2: Seq<u8>, pos: int)
    requires
        0 <= pos,
        bytes2.len() == bytes.len(),
        forall|i: int|
            frame_start(pos) <= i < read_frame_end(bytes, pos) ==> #[trigger] bytes2[i] == bytes[i],
    ensures
        read_frame_at(bytes2, pos) == read_frame_at(bytes, pos),
{
    let s = frame_start(pos);
    if bytes.len() >= s + HEADER_LEN {
        assert(bytes2.subrange(s, s + HEADER_LEN) =~= bytes.subrange(s, s + HEADER_LEN));
        if let Some(h) = parse_header(bytes.subrange(s, s + HEADER_LEN)) {
            let e = s + HEADER_LEN + h.len;
            if e <= next_block(s) && bytes.len() >= e {
                assert(bytes2.subrange(s + HEADER_LEN, e) =~= bytes.subrange(s + HEADER_LEN, e));
            }
        }
    }
}

/// The end of the bytes that reading a frame at `pos` looks at.
pub open spec fn read_frame_end(bytes: Seq<u8>, pos: int) -> int {
    let s = frame_start(pos);
    if bytes.len() < s + HEADER_LEN {
        s
    } else {
        match parse_header(bytes.subrange(s, s + HEADER_LEN)) {
            None => s + HEADER_LEN,
            Some(h) => if s + HEADER_LEN + h.len > next_block(s) || bytes.len() < s + HEADER_LEN + h.len {
                s + HEADER_LEN
            } else {
                s + HEADER_LEN + h.len
            },
        }
    }
}

/// A byte changed outside the block of a frame leaves the frame read as it was.
pub proof fn lemma_flipped_byte_other_block(bytes: Seq<u8>, pos: int, j: int, v: u8)
    requires
        0 <= pos,
        0 <= j < bytes.len(),
        j < frame_start(pos) - frame_start(pos) % (BLOCK_LEN as int) || j >= next_block(frame_start(pos)),
    ensures
        read_frame_at(bytes.update(j, v), pos) == read_frame_at(bytes, pos),
{
    let s = frame_start(pos);
    assert forall|i: int| s <= i < read_frame_end(bytes, pos) implies #[trigger] bytes.update(j, v)[i]
        == bytes[i] by {
        assert(i != j);
    }
    lemma_read_frame_local(bytes, bytes.update(j, v), pos);
}

/// Cutting the bytes short (a torn tail) leaves a frame that ends before
/// the cut as it was; any other read becomes `NotAvailable` or stays as it was.
pub proof fn lemma_read_frame_prefix(bytes: Seq<u8>, pos: int, n: int)
    requires
        0 <= pos,
        0 <= n <= bytes.len(),
    ensures
        read_frame_at(bytes.take(n), pos) == read_frame_at(bytes, pos) || (read_frame_at(
            bytes.take(n),
            pos,
        ).0 is NotAvailable && read_frame_at(bytes.take(n), pos).1 == pos),
        read_frame_at(bytes, pos).0 is Frame && read_frame_at(bytes, pos).1 <= n ==> read_frame_at(
            bytes.take(n),
            pos,
        ) == read_frame_at(bytes, pos),
{
    let t = bytes.take(n);
    let s = frame_start(pos);
    if t.len() >= s + HEADER_LEN {
        assert(t.subrange(s, s + HEADER_LEN) =~= bytes.subrange(s, s + HEADER_LEN));
        if let Some(h) = parse_header(bytes.subrange(s, s + HEADER_LEN)) {
            let e = s + HEADER_LEN + h.len;
            if e <= next_block(s) && t.len() >= e {
                assert(t.subrange(s + HEADER_LEN, e) =~= bytes.subrange(s + HEADER_LEN, e));
            }
        }
    }
}

/// A frame written after `pre`, whose length leaves `bl` bytes in the last
/// block, reads back from the end of `pre`, whatever follows it.
pub proof fn lemma_frame_read_back(
    pre: Seq<u8>,
    bl: int,
    t: FrameType,
    payload: Seq<u8>,
    post: Seq<u8>,
)
    requires
        0 <= bl < BLOCK_LEN,
        (pre.len() as int) % (BLOCK_LEN as int) == bl,
        payload.len() <= max_frame_len(bl),
    ensures
        ({
            let fb = frame_bytes(bl, t, payload);
            let bytes = pre + fb + post;
            &&& read_frame_at(bytes, pre.len() as int) == (
                FrameRead::Frame(t, payload),
                (pre.len() + fb.len()) as int,
            )
            &&& ((pre.len() + fb.len()) as int) % (BLOCK_LEN as int) == block_len_after(bl, payload.len() as int)
            &&& fb.len() >= HEADER_LEN
        }),
{
    let b = BLOCK_LEN as int;
    let pos = pre.len() as int;
    let h = header_for(t, payload);
    lemma_header_round_trip(h);
    let fb = frame_bytes(bl, t, payload);
    let bytes = pre + fb + post;
    let pad = padding_len(bl);
    let off = frame_offset_in_block(bl);
    let k = pos / b;
    lemma_fundamental_div_mod(pos, b);
    assert(pos == b * k + bl);
    let s = pos + pad;
    if pad > 0 {
        assert(s == b * (k + 1) + 0);
        lemma_mod_multiples_vanish(k + 1, 0, b);
    } else {
        lemma_mod_multiples_vanish(k, bl, b);
    }
    assert(s % b == off);
    assert(frame_start(pos) == s);
    assert(bytes.subrange(s, s + HEADER_LEN) =~= header_bytes(h));
    let e = s + HEADER_LEN + payload.len();
    assert(next_block(s) == s - off + b);
    assert(bytes.subrange(s + HEADER_LEN, e) =~= payload);
    assert(e == pos + fb.len());
    assert(e == b * (if pad > 0 { k + 1 } else { k }) + (off + HEADER_LEN + payload.len()));
    lemma_mod_multiples_vanish(if pad > 0 { k + 1 } else { k }, off + HEADER_LEN + payload.len(), b);
}

} // verus!
