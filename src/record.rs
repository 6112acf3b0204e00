//! Logical records: payloads split into FULL, or FIRST, MIDDLE*, LAST frames.
use vstd::prelude::*;

use crate::frame::{frame_type, spec_frame_type, FrameType, BLOCK_LEN, HEADER_LEN};
use crate::frame_reader::{
    frame_start, lemma_frame_read_back, lemma_read_frame_local, lemma_read_frame_prefix, read_frame_at, read_frame_end,
    FrameRead, FrameReader, ReadFrameError,
};
use crate::frame_writer::{block_len_after, frame_bytes, max_frame_len, FrameWriter};

verus! {

/// The bytes that writing `payload` as a record emits when the current block
/// holds `block_len` bytes, and the block length afterwards. `first` tells
/// whether the next frame opens the record.
pub open spec fn record_layout(block_len: int, payload: Seq<u8>, first: bool) -> (Seq<u8>, int)
    decreases payload.len(), (if max_frame_len(block_len) == 0 { 1int } else { 0int }),
{
    if !(0 <= block_len < BLOCK_LEN) {
        (Seq::empty(), block_len)
    } else {
        let room = max_frame_len(block_len);
        let n = if room < payload.len() { room } else { payload.len() as int };
        let last = n == payload.len();
        let head = frame_bytes(block_len, spec_frame_type(first, last), payload.take(n));
        let next_len = block_len_after(block_len, n);
        if last {
            (head, next_len)
        } else {
            let rest = record_layout(next_len, payload.skip(n), false);
            (head + rest.0, rest.1)
        }
    }
}

/// Splits records into frames.
pub struct RecordWriter {
    frame_writer: FrameWriter,
    written: Ghost<Seq<Seq<u8>>>,
}

impl RecordWriter {
    /// The frame writer is well formed, started on a block boundary, and has
    /// emitted the records written, one after the other.
    pub closed spec fn wf(&self) -> bool {
        &&& self.frame_writer.wf()
        &&& self.frame_writer.start() == 0
        &&& self.frame_writer.emitted() == records_layout(self.written@).0
        &&& self.frame_writer.block_len() == records_layout(self.written@).1
    }

    /// The payloads of the records written so far, in order.
    pub closed spec fn written(&self) -> Seq<Seq<u8>> {
        self.written@
    }

    /// The frame writer underneath.
    pub closed spec fn frames(&self) -> FrameWriter {
        self.frame_writer
    }

    /// The block length is within a block and matches the bytes emitted.
    pub proof fn lemma_block_len(&self)
        requires
            self.wf(),
        ensures
            0 <= self.frames().block_len() < BLOCK_LEN,
            (self.frames().start() + self.frames().emitted().len()) % (BLOCK_LEN as int)
                == self.frames().block_len(),
    {
        self.frame_writer.lemma_block_len();
    }

    /// The writer has emitted its records one after the other.
    pub proof fn lemma_layout(&self)
        requires
            self.wf(),
        ensures
            self.frames().emitted() == records_layout(self.written()).0,
            self.frames().block_len() == records_layout(self.written()).1,
    {
    }

    /// A record writer at the start of a block.
    pub fn open() -> (r: RecordWriter)
        ensures
            r.wf(),
            r.frames().pending() == Seq::<u8>::empty(),
            r.frames().emitted() == Seq::<u8>::empty(),
            r.frames().block_len() == 0,
            r.frames().start() == 0,
            r.written() == Seq::<Seq<u8>>::empty(),
    {
        RecordWriter {
            frame_writer: FrameWriter::create_with_aligned_write(),
            written: Ghost(Seq::empty()),
        }
    }

    /// Writes one record. An empty payload gives one empty FULL frame.
    pub fn write_record(&mut self, payload: &[u8])
        requires
            old(self).wf(),
        ensures
            final(self).wf(),
            final(self).frames().pending() == old(self).frames().pending() + record_layout(
                old(self).frames().block_len(),
                payload@,
                true,
            ).0,
            final(self).frames().emitted() == old(self).frames().emitted() + record_layout(
                old(self).frames().block_len(),
                payload@,
                true,
            ).0,
            final(self).frames().block_len() == record_layout(
                old(self).frames().block_len(),
                payload@,
                true,
            ).1,
            final(self).frames().start() == old(self).frames().start(),
            final(self).written() == old(self).written().push(payload@),
    {
        let ghost total = record_layout(self.frame_writer.block_len(), payload@, true);
        let mut is_first_frame = true;
        let mut offset: usize = 0;
        assert(payload@.skip(0) =~= payload@);
        loop
            invariant_except_break
                self.frame_writer.pending() + record_layout(
                    self.frame_writer.block_len(),
                    payload@.skip(offset as int),
                    is_first_frame,
                ).0 == old(self).frames().pending() + total.0,
                self.frame_writer.emitted() + record_layout(
                    self.frame_writer.block_len(),
                    payload@.skip(offset as int),
                    is_first_frame,
                ).0 == old(self).frames().emitted() + total.0,
                record_layout(
                    self.frame_writer.block_len(),
                    payload@.skip(offset as int),
                    is_first_frame,
                ).1 == total.1,
            invariant
                self.frame_writer.wf(),
                self.frame_writer.start() == old(self).frames().start(),
                offset <= payload@.len(),
                is_first_frame ==> offset == 0,
            ensures
                self.frame_writer.start() == old(self).frames().start(),
                self.frame_writer.wf(),
                self.frame_writer.pending() == old(self).frames().pending() + total.0,
                self.frame_writer.emitted() == old(self).frames().emitted() + total.0,
                self.frame_writer.block_len() == total.1,
            decreases payload@.len() - offset, (if max_frame_len(self.frame_writer.block_len()) == 0 { 1int } else { 0int }),
        {
            let ghost rest = payload@.skip(offset as int);
            let ghost bl = self.frame_writer.block_len();
            let ghost pend = self.frame_writer.pending();
            let ghost emit = self.frame_writer.emitted();
            let ghost first = is_first_frame;
            let room = self.frame_writer.max_writable_frame_length();
            let remaining = payload.len() - offset;
            let frame_payload_len = if room < remaining { room } else { remaining };
            let frame_payload = &payload[offset..offset + frame_payload_len];
            let is_last_frame = frame_payload_len == remaining;
            let t = frame_type(is_first_frame, is_last_frame);
            assert(frame_payload@ =~= rest.take(frame_payload_len as int));
            assert(rest.len() == remaining);
            self.frame_writer.write_frame(t, frame_payload);
            offset = offset + frame_payload_len;
            is_first_frame = false;
            let ghost head = frame_bytes(bl, t, rest.take(frame_payload_len as int));
            if is_last_frame {
                assert(record_layout(bl, rest, first).0 == head);
                assert(self.frame_writer.pending() =~= old(self).frames().pending() + total.0);
                assert(self.frame_writer.emitted() =~= old(self).frames().emitted() + total.0);
                break;
            }
            assert(payload@.skip(offset as int) =~= rest.skip(frame_payload_len as int));
            assert(self.frame_writer.pending() + record_layout(
                self.frame_writer.block_len(),
                payload@.skip(offset as int),
                false,
            ).0 =~= pend + record_layout(bl, rest, first).0);
            assert(self.frame_writer.emitted() + record_layout(
                self.frame_writer.block_len(),
                payload@.skip(offset as int),
                false,
            ).0 =~= emit + record_layout(bl, rest, first).0);
        }
        proof {
            let w2 = old(self).written().push(payload@);
            assert(w2.drop_last() =~= old(self).written());
            self.written@ = w2;
        }
    }

    /// Hands out the bytes emitted so far and forgets them.
    pub fn take_bytes(&mut self) -> (r: Vec<u8>)
        requires
            old(self).wf(),
        ensures
            final(self).wf(),
            r@ == old(self).frames().pending(),
            final(self).frames().pending() == Seq::<u8>::empty(),
            final(self).frames().block_len() == old(self).frames().block_len(),
            final(self).frames().emitted() == old(self).frames().emitted(),
            final(self).frames().start() == old(self).frames().start(),
            final(self).written() == old(self).written(),
    {
        self.frame_writer.take_bytes()
    }

    /// Bytes emitted since creation, saturated at `u64::MAX`.
    pub fn num_bytes_written(&self) -> (r: u64)
        requires
            self.wf(),
        ensures
            r == self.frames().written(),
    {
        self.frame_writer.num_bytes_written()
    }
}

} // verus!

verus! {

/// Why no record could be read.
#[derive(Clone, Copy, Debug, PartialEq, Eq, Structural)]
pub enum ReadRecordError {
    /// A frame was corrupted: the record that it belonged to is dropped, and
    /// reading goes on at the next block.
    Corruption,
}

/// The outcome of one record read.
pub enum RecordRead {
    Record(Seq<u8>),
    Corruption,
    NotAvailable,
}

/// What reading the next record gives, from position `pos` of `bytes`, in the
/// middle of a record (`within`) whose frames so far hold `buf`; and the
/// position, `within` flag and buffer afterwards. FIRST and FULL frames start
/// a new record, dropping a partial one; MIDDLE and LAST frames outside a
/// record are skipped.
pub open spec fn next_record(bytes: Seq<u8>, pos: int, within: bool, buf: Seq<u8>) -> (
    RecordRead,
    int,
    bool,
    Seq<u8>,
)
    decreases bytes.len() - pos,
{
    let (f, p) = read_frame_at(bytes, pos);
    match f {
        FrameRead::NotAvailable => (RecordRead::NotAvailable, p, within, buf),
        FrameRead::Corruption => (RecordRead::Corruption, p, false, buf),
        FrameRead::Frame(t, payload) => {
            let within1 = t.opens_record() || within;
            let buf1 = if t.opens_record() {
                payload
            } else if within {
                buf + payload
            } else {
                buf
            };
            if t.closes_record() && within1 {
                (RecordRead::Record(buf1), p, false, buf1)
            } else if pos < p <= bytes.len() {
                next_record(bytes, p, within1, buf1)
            } else {
                (RecordRead::NotAvailable, p, within1, buf1)
            }
        },
    }
}

/// A record that `next_record` gives is the buffer it leaves.
pub proof fn lemma_next_record_buffer(bytes: Seq<u8>, pos: int, within: bool, buf: Seq<u8>)
    ensures
        next_record(bytes, pos, within, buf).0 matches RecordRead::Record(rec) ==> rec == next_record(
            bytes,
            pos,
            within,
            buf,
        ).3,
    decreases bytes.len() - pos,
{
    let (f, p) = read_frame_at(bytes, pos);
    if let FrameRead::Frame(t, payload) = f {
        let within1 = t.opens_record() || within;
        let buf1 = if t.opens_record() {
            payload
        } else if within {
            buf + payload
        } else {
            buf
        };
        if !(t.closes_record() && within1) && pos < p <= bytes.len() {
            lemma_next_record_buffer(bytes, p, within1, buf1);
        }
    }
}

/// Reassembles records from the frames of one file.
pub struct RecordReader {
    frame_reader: FrameReader,
    record_buffer: Vec<u8>,
    within_record: bool,
}

impl RecordReader {
    /// The frame reader is well formed.
    pub closed spec fn wf(&self) -> bool {
        self.frame_reader.wf()
    }

    /// The bytes being read.
    pub closed spec fn bytes(&self) -> Seq<u8> {
        self.frame_reader.bytes()
    }

    /// Where the next frame read starts.
    pub closed spec fn pos(&self) -> int {
        self.frame_reader.pos()
    }

    /// True in the middle of a multi-frame record.
    pub closed spec fn within(&self) -> bool {
        self.within_record
    }

    /// The last record read, or the frames read so far of the current one.
    pub closed spec fn buffer(&self) -> Seq<u8> {
        self.record_buffer@
    }

    /// A reader at the start of `bytes`.
    pub fn open(bytes: Vec<u8>) -> (r: RecordReader)
        requires
            bytes@.len() + 2 * BLOCK_LEN <= usize::MAX,
        ensures
            r.wf(),
            r.bytes() == bytes@,
            r.pos() == 0,
            !r.within(),
            r.buffer() == Seq::<u8>::empty(),
    {
        RecordReader {
            frame_reader: FrameReader::open(bytes),
            record_buffer: Vec::new(),
            within_record: false,
        }
    }

    /// The last record read.
    pub fn record(&self) -> (r: &[u8])
        ensures
            r@ == self.buffer(),
    {
        self.record_buffer.as_slice()
    }

    /// Moves to the next record: `Ok(true)` if one was read (see `record`),
    /// `Ok(false)` at the end of the available bytes.
    pub fn go_next(&mut self) -> (r: Result<bool, ReadRecordError>)
        requires
            old(self).wf(),
        ensures
            final(self).wf(),
            0 <= final(self).pos() <= final(self).bytes().len() + BLOCK_LEN,
            final(self).bytes() == old(self).bytes(),
            ({
                let (res, p, w, b) = next_record(
                    old(self).bytes(),
                    old(self).pos(),
                    old(self).within(),
                    old(self).buffer(),
                );
                &&& final(self).pos() == p
                &&& final(self).within() == w
                &&& final(self).buffer() == b
                &&& match res {
                    RecordRead::Record(_) => r == Ok::<bool, ReadRecordError>(true),
                    RecordRead::NotAvailable => r == Ok::<bool, ReadRecordError>(false),
                    RecordRead::Corruption => r == Err::<bool, ReadRecordError>(
                        ReadRecordError::Corruption,
                    ),
                }
            }),
    {
        let ghost goal = next_record(
            self.frame_reader.bytes(),
            self.frame_reader.pos(),
            self.within_record,
            self.record_buffer@,
        );
        loop
            invariant
                self.frame_reader.wf(),
                self.frame_reader.bytes() == old(self).bytes(),
                goal == next_record(
                    self.frame_reader.bytes(),
                    self.frame_reader.pos(),
                    self.within_record,
                    self.record_buffer@,
                ),
                goal == next_record(
                    old(self).bytes(),
                    old(self).pos(),
                    old(self).within(),
                    old(self).buffer(),
                ),
            decreases self.frame_reader.bytes().len() - self.frame_reader.pos(),
        {
            let ghost pos0 = self.frame_reader.pos();
            let ghost within0 = self.within_record;
            let ghost buf0 = self.record_buffer@;
            match self.frame_reader.read_frame() {
                Ok((t, payload)) => {
                    let ghost buf1 = if t.opens_record() {
                        payload@
                    } else if within0 {
                        buf0 + payload@
                    } else {
                        buf0
                    };
                    if t.is_first_frame_of_record() {
                        self.within_record = true;
                        self.record_buffer.clear();
                    }
                    if self.within_record {
                        self.record_buffer.extend_from_slice(payload.as_slice());
                    }
                    assert(self.record_buffer@ =~= buf1);
                    if t.is_last_frame_of_record() && self.within_record {
                        self.within_record = false;
                        return Ok(true);
                    }
                    assert(pos0 < self.frame_reader.pos() <= self.frame_reader.bytes().len());
                },
                Err(ReadFrameError::Corruption) => {
                    self.within_record = false;
                    return Err(ReadRecordError::Corruption);
                },
                Err(ReadFrameError::NotAvailable) => {
                    return Ok(false);
                },
            }
        }
    }

    /// Reads the next record: `Ok(Some(payload))`, or `Ok(None)` at the end
    /// of the available bytes.
    pub fn read_record(&mut self) -> (r: Result<Option<Vec<u8>>, ReadRecordError>)
        requires
            old(self).wf(),
        ensures
            final(self).wf(),
            0 <= final(self).pos() <= final(self).bytes().len() + BLOCK_LEN,
            final(self).bytes() == old(self).bytes(),
            ({
                let (res, p, w, b) = next_record(
                    old(self).bytes(),
                    old(self).pos(),
                    old(self).within(),
                    old(self).buffer(),
                );
                &&& final(self).pos() == p
                &&& final(self).within() == w
                &&& final(self).buffer() == b
                &&& match res {
                    RecordRead::Record(rec) => r matches Ok(Some(v)) && v@ == rec,
                    RecordRead::NotAvailable => r matches Ok(None),
                    RecordRead::Corruption => r matches Err(ReadRecordError::Corruption),
                }
            }),
    {
        proof {
            lemma_next_record_buffer(
                old(self).bytes(),
                old(self).pos(),
                old(self).within(),
                old(self).buffer(),
            );
        }
        match self.go_next() {
            Ok(true) => Ok(Some(vstd::slice::slice_to_vec(self.record()))),
            Ok(false) => Ok(None),
            Err(e) => Err(e),
        }
    }
}

/// A read that finds a record or a corruption moves forward.
pub proof fn lemma_next_record_advances(bytes: Seq<u8>, pos: int, within: bool, buf: Seq<u8>)
    requires
        0 <= pos,
    ensures
        !(next_record(bytes, pos, within, buf).0 is NotAvailable) ==> next_record(
            bytes,
            pos,
            within,
            buf,
        ).1 > pos,
    decreases bytes.len() - pos,
{
    let (f, p) = read_frame_at(bytes, pos);
    if let FrameRead::Frame(t, payload) = f {
        let within1 = t.opens_record() || within;
        let buf1 = if t.opens_record() {
            payload
        } else if within {
            buf + payload
        } else {
            buf
        };
        if !(t.closes_record() && within1) && pos < p <= bytes.len() {
            lemma_next_record_advances(bytes, p, within1, buf1);
        }
    }
}

/// Writing a record always emits bytes.
pub proof fn lemma_record_layout_nonempty(block_len: int, payload: Seq<u8>, first: bool)
    requires
        0 <= block_len < BLOCK_LEN,
    ensures
        record_layout(block_len, payload, first).0.len() >= HEADER_LEN,
    decreases payload.len(), (if max_frame_len(block_len) == 0 { 1int } else { 0int }),
{
    let room = max_frame_len(block_len);
    let n = if room < payload.len() { room } else { payload.len() as int };
    let last = n == payload.len();
    let head = frame_bytes(block_len, spec_frame_type(first, last), payload.take(n));
    crate::frame::lemma_header_round_trip(crate::frame::header_for(spec_frame_type(first, last), payload.take(n)));
    assert(head.len() >= HEADER_LEN);
}

/// Torn tail: cutting the bytes anywhere after the last frame of a record
/// leaves that record readable, with the same outcome.
pub proof fn lemma_next_record_prefix(bytes: Seq<u8>, pos: int, within: bool, buf: Seq<u8>, n: int)
    requires
        0 <= pos,
        0 <= n <= bytes.len(),
        next_record(bytes, pos, within, buf).0 is Record,
        next_record(bytes, pos, within, buf).1 <= n,
    ensures
        next_record(bytes.take(n), pos, within, buf) == next_record(bytes, pos, within, buf),
    decreases bytes.len() - pos,
{
    let (f, p) = read_frame_at(bytes, pos);
    if let FrameRead::Frame(t, payload) = f {
        let within1 = t.opens_record() || within;
        let buf1 = if t.opens_record() {
            payload
        } else if within {
            buf + payload
        } else {
            buf
        };
        if !(t.closes_record() && within1) {
            lemma_next_record_advances(bytes, p, within1, buf1);
            lemma_read_frame_prefix(bytes, pos, n);
            lemma_next_record_prefix(bytes, p, within1, buf1, n);
        } else {
            lemma_read_frame_prefix(bytes, pos, n);
        }
    }
}

/// Corruption containment: a byte changed outside the bytes that a record
/// read covers leaves that record read as it was.
pub proof fn lemma_next_record_local(
    bytes: Seq<u8>,
    pos: int,
    within: bool,
    buf: Seq<u8>,
    j: int,
    v: u8,
)
    requires
        0 <= pos,
        0 <= j < bytes.len(),
        next_record(bytes, pos, within, buf).0 is Record,
        j < frame_start(pos) || j >= next_record(bytes, pos, within, buf).1,
    ensures
        next_record(bytes.update(j, v), pos, within, buf) == next_record(bytes, pos, within, buf),
    decreases bytes.len() - pos,
{
    let b2 = bytes.update(j, v);
    let (f, p) = read_frame_at(bytes, pos);
    if let FrameRead::Frame(t, payload) = f {
        let within1 = t.opens_record() || within;
        let buf1 = if t.opens_record() {
            payload
        } else if within {
            buf + payload
        } else {
            buf
        };
        if !(t.closes_record() && within1) {
            lemma_next_record_advances(bytes, p, within1, buf1);
        }
        assert(read_frame_end(bytes, pos) == p);
        assert forall|i: int| frame_start(pos) <= i < read_frame_end(bytes, pos) implies #[trigger] b2[i]
            == bytes[i] by {
            assert(i != j);
        }
        lemma_read_frame_local(bytes, b2, pos);
        if !(t.closes_record() && within1) {
            lemma_next_record_local(bytes, p, within1, buf1, j, v);
        }
    }
}

proof fn lemma_next_record_step(
    bytes: Seq<u8>,
    pos: int,
    within: bool,
    buf: Seq<u8>,
    t: FrameType,
    payload: Seq<u8>,
    e: int,
)
    requires
        read_frame_at(bytes, pos) == (FrameRead::Frame(t, payload), e),
        pos < e <= bytes.len(),
    ensures
        ({
            let within1 = t.opens_record() || within;
            let buf1 = if t.opens_record() {
                payload
            } else if within {
                buf + payload
            } else {
                buf
            };
            next_record(bytes, pos, within, buf) == if t.closes_record() && within1 {
                (RecordRead::Record(buf1), e, false, buf1)
            } else {
                next_record(bytes, e, within1, buf1)
            }
        }),
{
}

#[verifier::rlimit(100)]
/// Write, then read: the bytes of a record written after `pre` (whose
/// length leaves `bl` bytes in the last block) read back from the end of
/// `pre` as that record, whatever follows. A record that continues one
/// being read (`!first`) extends the buffer.
pub proof fn lemma_record_read_back(
    pre: Seq<u8>,
    bl: int,
    payload: Seq<u8>,
    first: bool,
    post: Seq<u8>,
    within: bool,
    buf: Seq<u8>,
)
    requires
        0 <= bl < BLOCK_LEN,
        (pre.len() as int) % (BLOCK_LEN as int) == bl,
        !first ==> within,
    ensures
        ({
            let layout = record_layout(bl, payload, first);
            let bytes = pre + layout.0 + post;
            let rec = if first { payload } else { buf + payload };
            &&& next_record(bytes, pre.len() as int, within, buf) == (
                RecordRead::Record(rec),
                (pre.len() + layout.0.len()) as int,
                false,
                rec,
            )
            &&& ((pre.len() + layout.0.len()) as int) % (BLOCK_LEN as int) == layout.1
        }),
    decreases payload.len(), (if max_frame_len(bl) == 0 { 1int } else { 0int }),
{
    let room = max_frame_len(bl);
    let n = if room < payload.len() { room } else { payload.len() as int };
    let last = n == payload.len();
    let t = spec_frame_type(first, last);
    let chunk = payload.take(n);
    let head = frame_bytes(bl, t, chunk);
    let next_len = block_len_after(bl, n);
    let layout = record_layout(bl, payload, first);
    let bytes = pre + layout.0 + post;
    let pos = pre.len() as int;
    let e = (pre.len() + head.len()) as int;
    let buf1 = if first { chunk } else { buf + chunk };
    if last {
        assert(layout.0 == head);
        assert(bytes =~= pre + head + post);
        lemma_frame_read_back(pre, bl, t, chunk, post);
        lemma_next_record_step(bytes, pos, within, buf, t, chunk, e);
        assert(chunk =~= payload);
        assert(buf + chunk =~= buf + payload);
    } else {
        let rest = record_layout(next_len, payload.skip(n), false);
        assert(layout.0 == head + rest.0);
        assert(bytes =~= pre + head + (rest.0 + post));
        lemma_frame_read_back(pre, bl, t, chunk, rest.0 + post);
        lemma_next_record_step(bytes, pos, within, buf, t, chunk, e);
        let pre2 = pre + head;
        assert(pre2 + rest.0 + post =~= bytes);
        lemma_record_read_back(pre2, next_len, payload.skip(n), false, post, true, buf1);
        assert(buf1 + payload.skip(n) =~= if first { payload } else { buf + payload });
    }
}

/// The bytes of records written one after the other from a block
/// boundary, and the block length afterwards.
pub open spec fn records_layout(payloads: Seq<Seq<u8>>) -> (Seq<u8>, int)
    decreases payloads.len(),
{
    if payloads.len() == 0 {
        (Seq::empty(), 0)
    } else {
        let prev = records_layout(payloads.drop_last());
        let l = record_layout(prev.1, payloads.last(), true);
        (prev.0 + l.0, l.1)
    }
}

/// The records' bytes end where their block length says.
pub proof fn lemma_records_layout_aligned(payloads: Seq<Seq<u8>>)
    ensures
        0 <= records_layout(payloads).1 < BLOCK_LEN,
        (records_layout(payloads).0.len() as int) % (BLOCK_LEN as int) == records_layout(payloads).1,
    decreases payloads.len(),
{
    if payloads.len() > 0 {
        let prev = records_layout(payloads.drop_last());
        lemma_records_layout_aligned(payloads.drop_last());
        lemma_record_read_back(prev.0, prev.1, payloads.last(), true, Seq::empty(), false, Seq::empty());
        lemma_record_layout_block_len(prev.1, payloads.last(), true);
    }
}

proof fn lemma_record_layout_block_len(block_len: int, payload: Seq<u8>, first: bool)
    requires
        0 <= block_len < BLOCK_LEN,
    ensures
        0 <= record_layout(block_len, payload, first).1 < BLOCK_LEN,
    decreases payload.len(), (if max_frame_len(block_len) == 0 { 1int } else { 0int }),
{
    let room = max_frame_len(block_len);
    let n = if room < payload.len() { room } else { payload.len() as int };
    if n != payload.len() {
        lemma_record_layout_block_len(block_len_after(block_len, n), payload.skip(n), false);
    }
}

/// The layout of the first `k` records is a prefix of the layout of all.
pub proof fn lemma_records_layout_prefix(payloads: Seq<Seq<u8>>, k: int)
    requires
        0 <= k <= payloads.len(),
    ensures
        records_layout(payloads).0.take(records_layout(payloads.take(k)).0.len() as int)
            == records_layout(payloads.take(k)).0,
        records_layout(payloads.take(k)).0.len() <= records_layout(payloads).0.len(),
    decreases payloads.len() - k,
{
    if k == payloads.len() {
        assert(payloads.take(k) =~= payloads);
        assert(records_layout(payloads).0.take(records_layout(payloads).0.len() as int)
            =~= records_layout(payloads).0);
    } else {
        lemma_records_layout_prefix(payloads, k + 1);
        let a = records_layout(payloads.take(k)).0;
        let b = records_layout(payloads.take(k + 1)).0;
        assert(payloads.take(k + 1).drop_last() =~= payloads.take(k));
        let all = records_layout(payloads).0;
        assert(all.take(a.len() as int) =~= b.take(a.len() as int));
        assert(b.take(a.len() as int) =~= a);
    }
}

/// Write, then read, for a whole stream: in the bytes of records written
/// one after the other from a block boundary (whatever follows them), the
/// `k`-th record reads back from where the previous one ended.
pub proof fn lemma_records_read_back(payloads: Seq<Seq<u8>>, k: int, post: Seq<u8>, buf: Seq<u8>)
    requires
        0 <= k < payloads.len(),
    ensures
        next_record(
            records_layout(payloads).0 + post,
            records_layout(payloads.take(k)).0.len() as int,
            false,
            buf,
        ) == (
            RecordRead::Record(payloads[k]),
            records_layout(payloads.take(k + 1)).0.len() as int,
            false,
            payloads[k],
        ),
{
    let pre = records_layout(payloads.take(k));
    let cur = records_layout(payloads.take(k + 1));
    assert(payloads.take(k + 1).drop_last() =~= payloads.take(k));
    assert(payloads.take(k + 1).last() == payloads[k]);
    let l = record_layout(pre.1, payloads[k], true);
    assert(cur.0 == pre.0 + l.0);
    lemma_records_layout_aligned(payloads.take(k));
    lemma_records_layout_prefix(payloads, k + 1);
    let all = records_layout(payloads).0;
    let rest = all.skip(cur.0.len() as int);
    assert(all =~= cur.0 + rest);
    assert(all + post =~= pre.0 + l.0 + (rest + post));
    lemma_record_read_back(pre.0, pre.1, payloads[k], true, rest + post, false, buf);
}

/// Write, then read, on a writer: the bytes that a record writer has
/// emitted, read from the start (whatever follows them), give back the
/// records written, in order: the `k`-th one from where the one before ended.
pub proof fn lemma_writer_reads_back(w: RecordWriter, k: int, post: Seq<u8>, buf: Seq<u8>)
    requires
        w.wf(),
        0 <= k < w.written().len(),
    ensures
        records_layout(w.written().take(0)).0.len() == 0,
        next_record(
            w.frames().emitted() + post,
            records_layout(w.written().take(k)).0.len() as int,
            false,
            buf,
        ) == (
            RecordRead::Record(w.written()[k]),
            records_layout(w.written().take(k + 1)).0.len() as int,
            false,
            w.written()[k],
        ),
{
    assert(w.written().take(0) =~= Seq::<Seq<u8>>::empty());
    lemma_records_read_back(w.written(), k, post, buf);
}

} // verus!
