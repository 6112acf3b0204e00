//! Frames: a 7-byte header (checksum, length, type) followed by a payload.
use vstd::prelude::*;

use crate::le_bytes::{
    from_le_u16, from_le_u32, le_u16, le_u32, lemma_le_u16_round_trip, lemma_le_u32_round_trip,
    push_le_u16, push_le_u32, read_le_u16, read_le_u32,
};

verus! {

/// Size of a block. No frame crosses a block boundary.
pub const BLOCK_LEN: usize = 32768;

/// Size of a frame header.
pub const HEADER_LEN: usize = 7;

/// The CRC-32 (IEEE) of a byte sequence.
pub uninterp spec fn crc32_of(b: Seq<u8>) -> u32;

/// Relies on `crc32fast::hash`: the IEEE CRC-32 of the bytes, a function of
/// the bytes alone.
#[verifier::external_body]
pub(crate) fn crc32(b: &[u8]) -> (r: u32)
    ensures
        r == crc32_of(b@),
{
    crc32fast::hash(b)
}

/// The place of a frame within its logical record.
#[derive(Clone, Copy, Debug, PartialEq, Eq, Structural)]
pub enum FrameType {
    Full,
    First,
    Middle,
    Last,
}

/// The type byte of each frame type.
pub open spec fn frame_type_code(t: FrameType) -> u8 {
    match t {
        FrameType::Full => 1,
        FrameType::First => 2,
        FrameType::Middle => 3,
        FrameType::Last => 4,
    }
}

/// The frame type that a type byte stands for, if any.
pub open spec fn frame_type_of_code(b: u8) -> Option<FrameType> {
    if b == 1 {
        Some(FrameType::Full)
    } else if b == 2 {
        Some(FrameType::First)
    } else if b == 3 {
        Some(FrameType::Middle)
    } else if b == 4 {
        Some(FrameType::Last)
    } else {
        None
    }
}

/// The type of a frame, given whether it opens and whether it closes its record.
pub open spec fn spec_frame_type(is_first: bool, is_last: bool) -> FrameType {
    if is_first && is_last {
        FrameType::Full
    } else if is_first {
        FrameType::First
    } else if is_last {
        FrameType::Last
    } else {
        FrameType::Middle
    }
}

impl FrameType {
    /// FULL and FIRST frames start a record.
    pub open spec fn opens_record(self) -> bool {
        self == FrameType::Full || self == FrameType::First
    }

    /// FULL and LAST frames end a record.
    pub open spec fn closes_record(self) -> bool {
        self == FrameType::Full || self == FrameType::Last
    }

    /// The type byte of this frame type.
    pub fn code(&self) -> (r: u8)
        ensures
            r == frame_type_code(*self),
    {
        match self {
            FrameType::Full => 1,
            FrameType::First => 2,
            FrameType::Middle => 3,
            FrameType::Last => 4,
        }
    }

    /// The frame type of a type byte; `None` for any byte but 1 to 4.
    pub fn from_code(b: u8) -> (r: Option<FrameType>)
        ensures
            r == frame_type_of_code(b),
    {
        match b {
            1 => Some(FrameType::Full),
            2 => Some(FrameType::First),
            3 => Some(FrameType::Middle),
            4 => Some(FrameType::Last),
            _ => None,
        }
    }

    /// True for FULL and FIRST.
    pub fn is_first_frame_of_record(&self) -> (r: bool)
        ensures
            r == self.opens_record(),
    {
        matches!(self, FrameType::Full | FrameType::First)
    }

    /// True for FULL and LAST.
    pub fn is_last_frame_of_record(&self) -> (r: bool)
        ensures
            r == self.closes_record(),
    {
        matches!(self, FrameType::Full | FrameType::Last)
    }
}

/// The type of a frame, given whether it opens and whether it closes its record.
pub fn frame_type(is_first_frame: bool, is_last_frame: bool) -> (r: FrameType)
    ensures
        r == spec_frame_type(is_first_frame, is_last_frame),
{
    match (is_first_frame, is_last_frame) {
        (true, true) => FrameType::Full,
        (true, false) => FrameType::First,
        (false, true) => FrameType::Last,
        (false, false) => FrameType::Middle,
    }
}

proof fn lemma_frame_type_code_round_trip(t: FrameType)
    ensures
        frame_type_of_code(frame_type_code(t)) == Some(t),
{
}

/// A frame header: checksum of the payload, payload length and frame type.
#[derive(Clone, Copy, Debug, PartialEq, Eq, Structural)]
pub struct Header {
    pub checksum: u32,
    pub len: u16,
    pub frame_type: FrameType,
}

/// The seven bytes of a header.
pub open spec fn header_bytes(h: Header) -> Seq<u8> {
    le_u32(h.checksum) + le_u16(h.len) + seq![frame_type_code(h.frame_type)]
}

/// The header that seven bytes describe, if their type byte is valid.
pub open spec fn parse_header(b: Seq<u8>) -> Option<Header>
    recommends
        b.len() >= HEADER_LEN,
{
    match frame_type_of_code(b[6]) {
        Some(t) => Some(
            Header { checksum: from_le_u32(b[0], b[1], b[2], b[3]), len: from_le_u16(b[4], b[5]), frame_type: t },
        ),
        None => None,
    }
}

/// The header that a frame with this type and payload carries.
pub open spec fn header_for(t: FrameType, payload: Seq<u8>) -> Header {
    Header { checksum: crc32_of(payload), len: payload.len() as u16, frame_type: t }
}

/// Parsing the bytes of a header gives the header back.
pub proof fn lemma_header_round_trip(h: Header)
    ensures
        header_bytes(h).len() == HEADER_LEN,
        parse_header(header_bytes(h)) == Some(h),
{
    let b = header_bytes(h);
    lemma_le_u32_round_trip(h.checksum);
    lemma_le_u16_round_trip(h.len);
    lemma_frame_type_code_round_trip(h.frame_type);
    assert(b[0] == le_u32(h.checksum)[0] && b[1] == le_u32(h.checksum)[1] && b[2] == le_u32(
        h.checksum,
    )[2] && b[3] == le_u32(h.checksum)[3]);
    assert(b[4] == le_u16(h.len)[0] && b[5] == le_u16(h.len)[1]);
    assert(b[6] == frame_type_code(h.frame_type));
}

impl Header {
    /// The header of a frame of type `frame_type` that carries `payload`.
    pub fn for_payload(frame_type: FrameType, payload: &[u8]) -> (r: Header)
        requires
            payload@.len() <= u16::MAX,
        ensures
            r == header_for(frame_type, payload@),
    {
        Header { checksum: crc32(payload), len: payload.len() as u16, frame_type }
    }

    /// Appends the seven bytes of this header to `out`.
    pub fn serialize(&self, out: &mut Vec<u8>)
        ensures
            final(out)@ == old(out)@ + header_bytes(*self),
    {
        push_le_u32(out, self.checksum);
        push_le_u16(out, self.len);
        out.push(self.frame_type.code());
        assert(final(out)@ =~= old(out)@ + header_bytes(*self));
    }

    /// Parses the header in the seven bytes at `at`; `None` if the type byte
    /// is not a frame type.
    pub fn deserialize(b: &[u8], at: usize) -> (r: Option<Header>)
        requires
            at + HEADER_LEN <= b@.len(),
        ensures
            r == parse_header(b@.subrange(at as int, at + HEADER_LEN)),
    {
        let _n = b.len();
        let ghost s = b@.subrange(at as int, at + HEADER_LEN);
        assert(s[0] == b@[at as int] && s[1] == b@[at + 1] && s[2] == b@[at + 2] && s[3]
            == b@[at + 3] && s[4] == b@[at + 4] && s[5] == b@[at + 5] && s[6] == b@[at + 6]);
        match FrameType::from_code(b[at + 6]) {
            Some(frame_type) => {
                let checksum = read_le_u32(b, at);
                let len = read_le_u16(b, at + 4);
                Some(Header { checksum, len, frame_type })
            },
            None => None,
        }
    }

    /// Payload length.
    pub fn len(&self) -> (r: usize)
        ensures
            r == self.len,
    {
        self.len as usize
    }

    /// True iff the payload's checksum is the one this header records.
    pub fn check(&self, payload: &[u8]) -> (r: bool)
        ensures
            r == (crc32_of(payload@) == self.checksum),
    {
        crc32(payload) == self.checksum
    }
}

} // verus!
