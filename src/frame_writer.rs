//! Writes frames into blocks, padding a block whose room is smaller than a header.
use vstd::prelude::*;

use crate::frame::{header_bytes, header_for, FrameType, Header, BLOCK_LEN, HEADER_LEN};
use vstd::arithmetic::div_mod::{lemma_fundamental_div_mod, lemma_mod_multiples_vanish};

verus! {

/// `n` zero bytes.
pub open spec fn zeros(n: int) -> Seq<u8> {
    Seq::new(n as nat, |_i: int| 0u8)
}

/// The room left in a block that already holds `block_len` bytes.
pub open spec fn room_in_block(block_len: int) -> int {
    BLOCK_LEN - block_len
}

/// The zero bytes that close a block before the next frame: the rest of the
/// block when it cannot hold a header, none otherwise.
pub open spec fn padding_len(block_len: int) -> int {
    if room_in_block(block_len) < HEADER_LEN {
        room_in_block(block_len)
    } else {
        0
    }
}

/// Where the next frame starts within its block.
pub open spec fn frame_offset_in_block(block_len: int) -> int {
    if room_in_block(block_len) < HEADER_LEN {
        0
    } else {
        block_len
    }
}

/// The largest payload that the next frame can carry.
pub open spec fn max_frame_len(block_len: int) -> int {
    BLOCK_LEN - HEADER_LEN - frame_offset_in_block(block_len)
}

/// The bytes that writing a frame emits: padding, header, payload.
pub open spec fn frame_bytes(block_len: int, t: FrameType, payload: Seq<u8>) -> Seq<u8> {
    zeros(padding_len(block_len)) + header_bytes(header_for(t, payload)) + payload
}

/// The block length after writing a frame with a payload of `n` bytes.
pub open spec fn block_len_after(block_len: int, n: int) -> int {
    (frame_offset_in_block(block_len) + HEADER_LEN + n) % (BLOCK_LEN as int)
}

/// Appends `n` zero bytes to `out`.
pub fn push_zeros(out: &mut Vec<u8>, n: usize)
    ensures
        final(out)@ == old(out)@ + zeros(n as int),
{
    let mut i: usize = 0;
    while i < n
        invariant
            i <= n,
            out@ == old(out)@ + zeros(i as int),
        decreases n - i,
    {
        out.push(0u8);
        i = i + 1;
        assert(out@ =~= old(out)@ + zeros(i as int));
    }
}

/// `n`, or `u64::MAX` if `n` is larger.
pub open spec fn saturate(n: int) -> u64 {
    if n > u64::MAX {
        u64::MAX
    } else {
        n as u64
    }
}

/// Lays out frames in blocks and keeps the bytes it emits until they are taken.
pub struct FrameWriter {
    buffer: Vec<u8>,
    current_block_len: usize,
    num_bytes_written: u64,
    emitted: Ghost<Seq<u8>>,
    start: Ghost<int>,
}

impl FrameWriter {
    /// The block length is within a block and matches the bytes emitted; the
    /// pending bytes are the last ones emitted; the counter saturates their number.
    pub closed spec fn wf(&self) -> bool {
        &&& self.current_block_len < BLOCK_LEN
        &&& self.buffer@.len() <= self.emitted@.len()
        &&& self.emitted@.subrange(self.emitted@.len() - self.buffer@.len(), self.emitted@.len() as int)
            == self.buffer@
        &&& self.num_bytes_written == saturate(self.emitted@.len() as int)
        &&& self.start@ >= 0
        &&& (self.start@ + self.emitted@.len()) % (BLOCK_LEN as int) == self.current_block_len
    }

    /// Where in its file the writer started: 0, or the length of the file it
    /// continues.
    pub closed spec fn start(&self) -> int {
        self.start@
    }

    /// Every byte emitted since creation, taken or not.
    pub closed spec fn emitted(&self) -> Seq<u8> {
        self.emitted@
    }

    /// Bytes emitted and not yet taken.
    pub closed spec fn pending(&self) -> Seq<u8> {
        self.buffer@
    }

    /// Bytes already filled in the current block.
    pub closed spec fn block_len(&self) -> int {
        self.current_block_len as int
    }

    /// Bytes emitted since creation, saturated at `u64::MAX`.
    pub open spec fn written(&self) -> u64 {
        saturate(self.emitted().len() as int)
    }

    /// The block length is within a block and matches the bytes emitted.
    pub proof fn lemma_block_len(&self)
        requires
            self.wf(),
        ensures
            0 <= self.block_len() < BLOCK_LEN,
            (self.start() + self.emitted().len()) % (BLOCK_LEN as int) == self.block_len(),
    {
    }

    /// A writer at the start of a block.
    pub fn create_with_aligned_write() -> (r: FrameWriter)
        ensures
            r.wf(),
            r.pending() == Seq::<u8>::empty(),
            r.emitted() == Seq::<u8>::empty(),
            r.block_len() == 0,
            r.start() == 0,
    {
        assert(Seq::<u8>::empty().subrange(0, 0) =~= Seq::<u8>::empty());
        FrameWriter {
            buffer: Vec::new(),
            current_block_len: 0,
            num_bytes_written: 0,
            emitted: Ghost(Seq::empty()),
            start: Ghost(0),
        }
    }

    /// A writer that continues a file of `file_len` bytes: if the file ends
    /// inside a block, the rest of that block is padded with zeros, so that
    /// the next frame starts on a block boundary.
    pub fn append_to(file_len: u64) -> (r: FrameWriter)
        ensures
            r.wf(),
            r.block_len() == 0,
            r.pending() == zeros(
                if file_len % (BLOCK_LEN as u64) == 0 {
                    0
                } else {
                    BLOCK_LEN - file_len % (BLOCK_LEN as u64)
                },
            ),
            r.emitted() == r.pending(),
            r.start() == file_len,
    {
        let position_within_block = (file_len % (BLOCK_LEN as u64)) as usize;
        let mut buffer: Vec<u8> = Vec::new();
        let mut pad: usize = 0;
        if position_within_block != 0 {
            pad = BLOCK_LEN - position_within_block;
        }
        push_zeros(&mut buffer, pad);
        assert(buffer@ =~= zeros(pad as int));
        assert(zeros(pad as int).subrange(0, pad as int) =~= zeros(pad as int));
        proof {
            let b = BLOCK_LEN as int;
            let f = file_len as int;
            lemma_fundamental_div_mod(f, b);
            if position_within_block != 0 {
                assert(f + pad == b * (f / b + 1) + 0);
                lemma_mod_multiples_vanish(f / b + 1, 0, b);
            } else {
                assert(f + pad == b * (f / b) + 0);
                lemma_mod_multiples_vanish(f / b, 0, b);
            }
        }
        FrameWriter {
            buffer,
            current_block_len: 0,
            num_bytes_written: pad as u64,
            emitted: Ghost(zeros(pad as int)),
            start: Ghost(file_len as int),
        }
    }

    /// The largest payload that the next frame can carry.
    pub fn max_writable_frame_length(&self) -> (r: usize)
        requires
            self.wf(),
        ensures
            r == max_frame_len(self.block_len()),
            0 <= r <= BLOCK_LEN - HEADER_LEN,
            0 <= self.block_len() < BLOCK_LEN,
    {
        let available_num_bytes_in_block = BLOCK_LEN - self.current_block_len;
        if available_num_bytes_in_block >= HEADER_LEN {
            available_num_bytes_in_block - HEADER_LEN
        } else {
            BLOCK_LEN - HEADER_LEN
        }
    }

    /// Writes one frame, after padding the block if it cannot hold a header.
    pub fn write_frame(&mut self, frame_type: FrameType, payload: &[u8])
        requires
            old(self).wf(),
            payload@.len() <= max_frame_len(old(self).block_len()),
        ensures
            final(self).wf(),
            final(self).pending() == old(self).pending() + frame_bytes(
                old(self).block_len(),
                frame_type,
                payload@,
            ),
            final(self).block_len() == block_len_after(old(self).block_len(), payload@.len() as int),
            final(self).emitted() == old(self).emitted() + frame_bytes(
                old(self).block_len(),
                frame_type,
                payload@,
            ),
            final(self).start() == old(self).start(),
    {
        let available = BLOCK_LEN - self.current_block_len;
        let mut emitted: usize = 0;
        if available < HEADER_LEN {
            push_zeros(&mut self.buffer, available);
            emitted = available;
            self.current_block_len = 0;
        }
        let header = Header::for_payload(frame_type, payload);
        header.serialize(&mut self.buffer);
        self.buffer.extend_from_slice(payload);
        let frame_len = HEADER_LEN + payload.len();
        self.current_block_len = (self.current_block_len + frame_len) % BLOCK_LEN;
        self.num_bytes_written = self.num_bytes_written.saturating_add((emitted + frame_len) as u64);
        let ghost fb = frame_bytes(old(self).block_len(), frame_type, payload@);
        proof {
            crate::frame::lemma_header_round_trip(header);
            assert(self.buffer@ =~= old(self).pending() + fb);
            self.emitted@ = old(self).emitted() + fb;
            crate::frame::lemma_header_round_trip(header);
            let b = BLOCK_LEN as int;
            let t0 = self.start@ + old(self).emitted@.len();
            let k = t0 / b;
            lemma_fundamental_div_mod(t0, b);
            let cbl0 = old(self).current_block_len as int;
            let off = frame_offset_in_block(cbl0);
            let k2 = if room_in_block(cbl0) < HEADER_LEN { k + 1 } else { k };
            assert(t0 + fb.len() == b * k2 + (off + HEADER_LEN + payload@.len()));
            lemma_mod_multiples_vanish(k2, off + HEADER_LEN + payload@.len(), b);
            let e = self.emitted@;
            let oe = old(self).emitted();
            let ob = old(self).pending();
            assert(e.subrange(e.len() - self.buffer@.len(), e.len() as int) =~= self.buffer@) by {
                assert(oe.subrange(oe.len() - ob.len(), oe.len() as int) == ob);
                assert forall|i: int| 0 <= i < self.buffer@.len() implies e.subrange(
                    e.len() - self.buffer@.len(),
                    e.len() as int,
                )[i] == self.buffer@[i] by {
                    if i < ob.len() {
                        assert(e[e.len() - self.buffer@.len() + i] == oe[oe.len() - ob.len() + i]);
                    }
                }
            }
        }
    }

    /// Hands out the bytes emitted so far and forgets them.
    pub fn take_bytes(&mut self) -> (r: Vec<u8>)
        requires
            old(self).wf(),
        ensures
            final(self).wf(),
            r@ == old(self).pending(),
            final(self).pending() == Seq::<u8>::empty(),
            final(self).block_len() == old(self).block_len(),
            final(self).emitted() == old(self).emitted(),
            final(self).start() == old(self).start(),
    {
        let mut r: Vec<u8> = Vec::new();
        std::mem::swap(&mut r, &mut self.buffer);
        assert(self.emitted@.subrange(self.emitted@.len() - 0, self.emitted@.len() as int)
            =~= self.buffer@);
        r
    }

    /// Bytes emitted since creation, saturated at `u64::MAX`.
    pub fn num_bytes_written(&self) -> (r: u64)
        requires
            self.wf(),
        ensures
            r == self.written(),
    {
        self.num_bytes_written
    }
}

} // verus!
