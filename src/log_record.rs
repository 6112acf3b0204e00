//! Log records: the tagged operations that the log stores, one per logical record.
use vstd::prelude::*;
use vstd::utf8::{decode_utf8, encode_utf8, valid_utf8};

use crate::le_bytes::{
    from_le_u16, from_le_u64, le_u16, le_u64, lemma_le_u16_round_trip, lemma_le_u64_round_trip,
    push_le_u16, push_le_u64, read_le_u16, read_le_u64,
};

verus! {

broadcast use vstd::utf8::encode_utf8_decode_utf8, vstd::utf8::encode_utf8_valid_utf8;

/// Relies on `String::from_utf8`: it succeeds iff the bytes are valid UTF-8,
/// and the string it returns is made of exactly those bytes.
#[verifier::external_body]
pub(crate) fn string_from_utf8(bytes: Vec<u8>) -> (r: Option<String>)
    ensures
        r is Some <==> valid_utf8(bytes@),
        r matches Some(s) ==> encode_utf8(s@) == bytes@,
{
    String::from_utf8(bytes).ok()
}

/// The kind of operation a log record carries.
#[derive(Clone, Copy, Debug, PartialEq, Eq, Structural)]
pub enum RecordType {
    AppendRecord,
    Truncate,
    Touch,
    DeleteQueue,
}

/// The tag byte of each kind.
pub open spec fn record_type_code(t: RecordType) -> u8 {
    match t {
        RecordType::AppendRecord => 0,
        RecordType::Truncate => 1,
        RecordType::Touch => 2,
        RecordType::DeleteQueue => 3,
    }
}

/// The kind that a tag byte stands for, if any.
pub open spec fn record_type_of_code(b: u8) -> Option<RecordType> {
    if b == 0 {
        Some(RecordType::AppendRecord)
    } else if b == 1 {
        Some(RecordType::Truncate)
    } else if b == 2 {
        Some(RecordType::Touch)
    } else if b == 3 {
        Some(RecordType::DeleteQueue)
    } else {
        None
    }
}

impl RecordType {
    /// The tag byte of this kind.
    pub fn code(&self) -> (r: u8)
        ensures
            r == record_type_code(*self),
    {
        match self {
            RecordType::AppendRecord => 0,
            RecordType::Truncate => 1,
            RecordType::Touch => 2,
            RecordType::DeleteQueue => 3,
        }
    }

    /// The kind of a tag byte; `None` for any byte but 0 to 3.
    pub fn from_code(code: u8) -> (r: Option<RecordType>)
        ensures
            r == record_type_of_code(code),
    {
        match code {
            0 => Some(RecordType::AppendRecord),
            1 => Some(RecordType::Truncate),
            2 => Some(RecordType::Touch),
            3 => Some(RecordType::DeleteQueue),
            _ => None,
        }
    }
}

/// An operation on a queue, as stored in the log.
#[derive(Debug, PartialEq, Eq)]
pub enum Record {
    /// Adds a record at `position` to `queue`.
    AppendRecord { position: u64, queue: String, payload: Vec<u8> },
    /// Removes the records of `queue` up to and including `position`.
    Truncate { position: u64, queue: String },
    /// Records that the next position of `queue` is `position`, creating the
    /// queue if it does not exist.
    Touch { position: u64, queue: String },
    /// Removes `queue`, whose next position was `position`.
    DeleteQueue { position: u64, queue: String },
}

/// What a record holds: its kind, position, queue name and payload (empty
/// but for appends).
pub struct RecordView {
    pub kind: RecordType,
    pub position: u64,
    pub queue: Seq<char>,
    pub payload: Seq<u8>,
}

impl View for Record {
    type V = RecordView;

    open spec fn view(&self) -> RecordView {
        match self {
            Record::AppendRecord { position, queue, payload } => RecordView {
                kind: RecordType::AppendRecord,
                position: *position,
                queue: queue@,
                payload: payload@,
            },
            Record::Truncate { position, queue } => RecordView {
                kind: RecordType::Truncate,
                position: *position,
                queue: queue@,
                payload: Seq::empty(),
            },
            Record::Touch { position, queue } => RecordView {
                kind: RecordType::Touch,
                position: *position,
                queue: queue@,
                payload: Seq::empty(),
            },
            Record::DeleteQueue { position, queue } => RecordView {
                kind: RecordType::DeleteQueue,
                position: *position,
                queue: queue@,
                payload: Seq::empty(),
            },
        }
    }
}

/// Length of the fixed part: tag, position, name length.
pub const RECORD_PREFIX_LEN: usize = 11;

/// Log records as the log writes them: encodable, and without payload
/// unless they are appends.
pub open spec fn well_formed_records(rs: Seq<RecordView>) -> bool {
    forall|i: int|
        0 <= i < rs.len() ==> encodable(#[trigger] rs[i]) && (rs[i].kind != RecordType::AppendRecord
            ==> rs[i].payload.len() == 0)
}

/// A record can be encoded when its queue name fits in `u16::MAX` bytes.
pub open spec fn encodable(r: RecordView) -> bool {
    encode_utf8(r.queue).len() <= u16::MAX
}

/// The bytes of a record: tag, position, name length, name, payload.
pub open spec fn encode_record(r: RecordView) -> Seq<u8> {
    let name = encode_utf8(r.queue);
    seq![record_type_code(r.kind)] + le_u64(r.position) + le_u16(name.len() as u16) + name
        + r.payload
}

/// The record that bytes encode, if any: at least 11 bytes, a known tag, a
/// name that fits and is UTF-8. The bytes after the name are the payload of
/// an append and are ignored otherwise.
pub open spec fn decode_record(b: Seq<u8>) -> Option<RecordView> {
    if b.len() < RECORD_PREFIX_LEN {
        None
    } else {
        match record_type_of_code(b[0]) {
            None => None,
            Some(kind) => {
                let name_len = from_le_u16(b[9], b[10]) as int;
                if RECORD_PREFIX_LEN + name_len > b.len() {
                    None
                } else {
                    let name = b.subrange(RECORD_PREFIX_LEN as int, RECORD_PREFIX_LEN + name_len);
                    if !valid_utf8(name) {
                        None
                    } else {
                        Some(
                            RecordView {
                                kind,
                                position: from_le_u64(b.subrange(1, 9)),
                                queue: decode_utf8(name),
                                payload: if kind == RecordType::AppendRecord {
                                    b.subrange(RECORD_PREFIX_LEN + name_len, b.len() as int)
                                } else {
                                    Seq::empty()
                                },
                            },
                        )
                    }
                }
            },
        }
    }
}

/// Decoding the bytes of an encodable record gives the record back.
pub proof fn lemma_record_round_trip(r: RecordView)
    requires
        encodable(r),
        r.kind != RecordType::AppendRecord ==> r.payload.len() == 0,
    ensures
        decode_record(encode_record(r)) == Some(r),
{
    let b = encode_record(r);
    let name = encode_utf8(r.queue);
    let n = name.len() as u16;
    lemma_le_u64_round_trip(r.position);
    lemma_le_u16_round_trip(n);
    assert(b.subrange(1, 9) =~= le_u64(r.position));
    assert(b[9] == le_u16(n)[0] && b[10] == le_u16(n)[1]);
    assert(b.subrange(RECORD_PREFIX_LEN as int, RECORD_PREFIX_LEN + name.len()) =~= name);
    assert(b.subrange(RECORD_PREFIX_LEN + name.len(), b.len() as int) =~= r.payload);
    if r.kind != RecordType::AppendRecord {
        assert(r.payload =~= Seq::<u8>::empty());
    }
}

fn push_record(
    record_type: RecordType,
    position: u64,
    queue: &str,
    payload: &[u8],
    buffer: &mut Vec<u8>,
)
    requires
        encode_utf8(queue@).len() <= u16::MAX,
    ensures
        final(buffer)@ == old(buffer)@ + seq![record_type_code(record_type)] + le_u64(position)
            + le_u16(encode_utf8(queue@).len() as u16) + encode_utf8(queue@) + payload@,
{
    let name = queue.as_bytes();
    buffer.push(record_type.code());
    push_le_u64(buffer, position);
    push_le_u16(buffer, name.len() as u16);
    buffer.extend_from_slice(name);
    buffer.extend_from_slice(payload);
    assert(final(buffer)@ =~= old(buffer)@ + seq![record_type_code(record_type)] + le_u64(position)
        + le_u16(encode_utf8(queue@).len() as u16) + encode_utf8(queue@) + payload@);
}

impl Record {
    /// The queue that the record is about.
    pub fn queue(&self) -> (r: &str)
        ensures
            r@ == self@.queue,
    {
        match self {
            Record::AppendRecord { queue, .. } => queue.as_str(),
            Record::Truncate { queue, .. } => queue.as_str(),
            Record::Touch { queue, .. } => queue.as_str(),
            Record::DeleteQueue { queue, .. } => queue.as_str(),
        }
    }

    /// Clears `buffer` and writes the bytes of the record into it.
    pub fn serialize(&self, buffer: &mut Vec<u8>)
        requires
            encodable(self@),
        ensures
            final(buffer)@ == encode_record(self@),
    {
        buffer.clear();
        match self {
            Record::AppendRecord { position, queue, payload } => {
                push_record(
                    RecordType::AppendRecord,
                    *position,
                    queue.as_str(),
                    payload.as_slice(),
                    buffer,
                );
            },
            Record::Truncate { position, queue } => {
                push_record(RecordType::Truncate, *position, queue.as_str(), &[], buffer);
            },
            Record::Touch { position, queue } => {
                push_record(RecordType::Touch, *position, queue.as_str(), &[], buffer);
            },
            Record::DeleteQueue { position, queue } => {
                push_record(RecordType::DeleteQueue, *position, queue.as_str(), &[], buffer);
            },
        }
        assert(final(buffer)@ =~= encode_record(self@));
    }

    /// The record that `buffer` holds; `None` if it is not a valid record.
    pub fn deserialize(buffer: &[u8]) -> (r: Option<Record>)
        ensures
            r is Some <==> decode_record(buffer@) is Some,
            r matches Some(rec) ==> Some(rec@) == decode_record(buffer@),
    {
        let len = buffer.len();
        if len < RECORD_PREFIX_LEN {
            return None;
        }
        let kind = match RecordType::from_code(buffer[0]) {
            Some(kind) => kind,
            None => return None,
        };
        let position = read_le_u64(buffer, 1);
        let name_len = read_le_u16(buffer, 9) as usize;
        if name_len > len - RECORD_PREFIX_LEN {
            return None;
        }
        let name_end = RECORD_PREFIX_LEN + name_len;
        let name_bytes = vstd::slice::slice_to_vec(&buffer[RECORD_PREFIX_LEN..name_end]);
        let queue = match string_from_utf8(name_bytes) {
            Some(queue) => queue,
            None => return None,
        };
        proof {
            vstd::utf8::encode_utf8_decode_utf8(queue@);
        }
        match kind {
            RecordType::AppendRecord => {
                let payload = vstd::slice::slice_to_vec(&buffer[name_end..len]);
                Some(Record::AppendRecord { position, queue, payload })
            },
            RecordType::Truncate => Some(Record::Truncate { position, queue }),
            RecordType::Touch => Some(Record::Touch { position, queue }),
            RecordType::DeleteQueue => Some(Record::DeleteQueue { position, queue }),
        }
    }
}

/// A decoded record can be encoded again.
pub proof fn lemma_decoded_encodable(b: Seq<u8>)
    ensures
        decode_record(b) matches Some(r) ==> encodable(r),
{
    if let Some(r) = decode_record(b) {
        let name_len = from_le_u16(b[9], b[10]) as int;
        let name = b.subrange(RECORD_PREFIX_LEN as int, RECORD_PREFIX_LEN + name_len);
        vstd::utf8::decode_utf8_encode_utf8(name);
    }
}

} // verus!
