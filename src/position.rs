//! File numbers and the names of the files they stand for.
use vstd::prelude::*;
use vstd::utf8::encode_utf8;

use crate::log_record::string_from_utf8;

verus! {

/// The ASCII code of `0`.
pub const ZERO_DIGIT: u8 = 48;

/// Number of decimal digits in a file name.
pub const FILENAME_DIGITS: usize = 20;

/// Length of a file name: `wal-` and the digits.
pub const FILENAME_LEN: usize = 24;

/// An ASCII decimal digit.
pub open spec fn is_digit(b: u8) -> bool {
    ZERO_DIGIT <= b <= ZERO_DIGIT + 9
}

/// The last `width` decimal digits of `n`, most significant first, as ASCII.
pub open spec fn decimal_digits(n: nat, width: nat) -> Seq<u8>
    decreases width,
{
    if width == 0 {
        Seq::empty()
    } else {
        decimal_digits(n / 10, (width - 1) as nat).push(((n % 10) + ZERO_DIGIT) as u8)
    }
}

/// The number that ASCII decimal digits write, most significant first.
pub open spec fn decimal_value(d: Seq<u8>) -> int
    decreases d.len(),
{
    if d.len() == 0 {
        0
    } else {
        decimal_value(d.drop_last()) * 10 + (d.last() - ZERO_DIGIT)
    }
}

/// The bytes of `wal-`.
pub open spec fn wal_prefix() -> Seq<u8> {
    seq![119u8, 97u8, 108u8, 45u8]
}

/// The bytes of the name of file `n`: `wal-` and `n` in 20 zero-padded digits.
pub open spec fn filename_bytes(n: u32) -> Seq<u8> {
    wal_prefix() + decimal_digits(n as nat, FILENAME_DIGITS as nat)
}

/// The file number that a name stands for: `wal-` followed by exactly 20
/// ASCII digits whose value fits in a `u32`.
pub open spec fn parse_filename(b: Seq<u8>) -> Option<u32> {
    if b.len() == FILENAME_LEN && b.take(4) == wal_prefix() && (forall|i: int|
        4 <= i < FILENAME_LEN ==> is_digit(#[trigger] b[i])) && decimal_value(b.skip(4))
        <= u32::MAX {
        Some(decimal_value(b.skip(4)) as u32)
    } else {
        None
    }
}

proof fn lemma_decimal_digits(n: nat, width: nat)
    ensures
        decimal_digits(n, width).len() == width,
        forall|i: int| 0 <= i < width ==> is_digit(#[trigger] decimal_digits(n, width)[i]),
    decreases width,
{
    if width > 0 {
        lemma_decimal_digits(n / 10, (width - 1) as nat);
    }
}

/// Digits never decrease the value as they are appended.
proof fn lemma_decimal_value_grows(d: Seq<u8>, i: int)
    requires
        0 <= i <= d.len(),
        forall|k: int| 0 <= k < d.len() ==> is_digit(#[trigger] d[k]),
    ensures
        decimal_value(d.take(i)) <= decimal_value(d),
        0 <= decimal_value(d.take(i)),
    decreases d.len() - i,
{
    if i < d.len() {
        lemma_decimal_value_grows(d, i + 1);
        assert(d.take(i + 1).drop_last() =~= d.take(i));
        lemma_decimal_value_nonneg(d.take(i));
    } else {
        assert(d.take(i) =~= d);
        lemma_decimal_value_nonneg(d);
    }
}

proof fn lemma_decimal_value_nonneg(d: Seq<u8>)
    requires
        forall|k: int| 0 <= k < d.len() ==> is_digit(#[trigger] d[k]),
    ensures
        0 <= decimal_value(d),
    decreases d.len(),
{
    if d.len() > 0 {
        lemma_decimal_value_nonneg(d.drop_last());
    }
}

/// Appends the last `width` decimal digits of `n` to `out`.
fn push_decimal(out: &mut Vec<u8>, n: u64, width: usize)
    ensures
        final(out)@ == old(out)@ + decimal_digits(n as nat, width as nat),
    decreases width,
{
    if width > 0 {
        push_decimal(out, n / 10, width - 1);
        out.push((n % 10) as u8 + ZERO_DIGIT);
        assert(final(out)@ =~= old(out)@ + decimal_digits(n as nat, width as nat));
    }
}

/// Identifies one file of the log.
#[derive(Clone, Copy, Debug, PartialEq, Eq, Structural, PartialOrd, Ord, Hash)]
pub struct FileNumber {
    file_number: u32,
}

impl View for FileNumber {
    type V = u32;

    closed spec fn view(&self) -> u32 {
        self.file_number
    }
}

/// The number of an optional file.
pub open spec fn file_opt(o: Option<FileNumber>) -> Option<u32> {
    match o {
        Some(f) => Some(f@),
        None => None,
    }
}

impl FileNumber {
    /// The handle of file `file_number`.
    pub fn new(file_number: u32) -> (r: FileNumber)
        ensures
            r@ == file_number,
    {
        FileNumber { file_number }
    }

    /// Same as `new`.
    pub fn for_test(file_number: u32) -> (r: FileNumber)
        ensures
            r@ == file_number,
    {
        FileNumber::new(file_number)
    }

    /// The number of the file.
    pub fn file_number(&self) -> (r: u32)
        ensures
            r == self@,
    {
        self.file_number
    }

    /// The number after this one; `None` after `u32::MAX`.
    pub fn inc(&self) -> (r: Option<FileNumber>)
        ensures
            self@ < u32::MAX ==> (r matches Some(n) && n@ == self@ + 1),
            self@ == u32::MAX ==> r is None,
    {
        if self.file_number < u32::MAX {
            Some(FileNumber { file_number: self.file_number + 1 })
        } else {
            None
        }
    }

    /// The name of the file: `wal-` and the number in 20 zero-padded digits.
    pub fn filename(&self) -> (r: String)
        ensures
            encode_utf8(r@) == filename_bytes(self@),
    {
        let mut bytes: Vec<u8> = Vec::new();
        bytes.push(119u8);
        bytes.push(97u8);
        bytes.push(108u8);
        bytes.push(45u8);
        push_decimal(&mut bytes, self.file_number as u64, FILENAME_DIGITS);
        proof {
            lemma_decimal_digits(self@ as nat, FILENAME_DIGITS as nat);
            assert(bytes@ =~= filename_bytes(self@));
            lemma_ascii_valid_utf8(bytes@);
        }
        match string_from_utf8(bytes) {
            Some(s) => s,
            None => String::new(),
        }
    }
}

proof fn lemma_ascii_valid_utf8(b: Seq<u8>)
    requires
        forall|i: int| 0 <= i < b.len() ==> #[trigger] b[i] < 128,
    ensures
        vstd::utf8::valid_utf8(b),
    decreases b.len(),
{
    if b.len() > 0 {
        let rest = b.drop_first();
        assert forall|i: int| 0 <= i < rest.len() implies #[trigger] rest[i] < 128 by {
            assert(rest[i] == b[i + 1]);
        }
        lemma_ascii_valid_utf8(rest);
        assert(vstd::utf8::pop_first_scalar(b) =~= rest);
    }
}

impl From<u32> for FileNumber {
    fn from(file_number: u32) -> (r: FileNumber)
        ensures
            r@ == file_number,
            r == FileNumber::spec_from(file_number),
    {
        FileNumber { file_number }
    }
}

impl vstd::std_specs::convert::FromSpecImpl<u32> for FileNumber {
    open spec fn obeys_from_spec() -> bool {
        true
    }

    open spec fn from_spec(v: u32) -> FileNumber {
        FileNumber::spec_from(v)
    }
}

impl FileNumber {
    /// The handle of file `v`.
    pub closed spec fn spec_from(v: u32) -> FileNumber {
        FileNumber { file_number: v }
    }
}

/// The number that a file name stands for: `wal-` followed by exactly 20
/// ASCII digits whose value fits in a `u32`; `None` for any other name.
pub fn filename_to_position(file_name: &str) -> (r: Option<u32>)
    ensures
        r == parse_filename(encode_utf8(file_name@)),
{
    let b = file_name.as_bytes();
    let ghost s = b@;
    assert(s == encode_utf8(file_name@));
    if b.len() != FILENAME_LEN {
        return None;
    }
    if !(b[0] == 119u8 && b[1] == 97u8 && b[2] == 108u8 && b[3] == 45u8) {
        assert(s.take(4) != wal_prefix()) by {
            if s.take(4) == wal_prefix() {
                assert(s.take(4)[0] == s[0] && s.take(4)[1] == s[1] && s.take(4)[2] == s[2]
                    && s.take(4)[3] == s[3]);
            }
        }
        return None;
    }
    assert(s.take(4) =~= wal_prefix());
    let ghost digits = s.skip(4);
    let mut acc: u64 = 0;
    let mut i: usize = 4;
    assert(digits.take(0) =~= Seq::<u8>::empty());
    while i < FILENAME_LEN
        invariant
            b@ == s,
            s == encode_utf8(file_name@),
            s.len() == FILENAME_LEN,
            digits == s.skip(4),
            4 <= i <= FILENAME_LEN,
            forall|k: int| 4 <= k < i ==> is_digit(#[trigger] s[k]),
            acc == decimal_value(digits.take(i - 4)),
            acc <= u32::MAX,
        decreases FILENAME_LEN - i,
    {
        let c = b[i];
        if !(ZERO_DIGIT <= c && c <= ZERO_DIGIT + 9) {
            assert(!is_digit(s[i as int]));
            return None;
        }
        let ghost prev = digits.take(i - 4);
        acc = acc * 10 + (c - ZERO_DIGIT) as u64;
        i = i + 1;
        assert(digits.take(i - 4).drop_last() =~= prev);
        assert(digits.take(i - 4).last() == c);
        if acc > u32::MAX as u64 {
            proof {
                if forall|k: int| 4 <= k < FILENAME_LEN ==> is_digit(#[trigger] s[k]) {
                    assert forall|k: int| 0 <= k < digits.len() implies is_digit(
                        #[trigger] digits[k],
                    ) by {
                        assert(digits[k] == s[k + 4]);
                    }
                    lemma_decimal_value_grows(digits, i - 4);
                }
            }
            return None;
        }
    }
    assert(digits.take(20) =~= digits);
    Some(acc as u32)
}

} // verus!
