//! The fixed 24-byte record leader.
//!
//! The leader opens every record.  Its fixed-width ASCII numeral fields give
//! the record's total length, the offset at which the field area begins, and
//! the entry map: the column widths of the directory that follows.  Each
//! numeral field must be all digits; an entry-map byte may also be a blank,
//! which means zero.

use crate::cursor::ByteCursor;
use crate::digits::dec_digits;
use crate::digits::dec_value;
use crate::digits::is_dec_digit;
use crate::digits::lemma_dec_value_bound;
use crate::digits::parse_decimal;
use crate::digits::pow10;
use crate::errors::ParseError;
use vstd::prelude::*;
use vstd::slice::slice_subrange;

verus! {

/// The blank byte, which an entry-map width may use to mean zero.
pub const BLANK: u8 = 32;

/// An entry-map byte is a decimal digit or a blank.
pub open spec fn em_byte_ok(b: u8) -> bool {
    is_dec_digit(b) || b == BLANK
}

/// The width an entry-map byte denotes: its digit value, or zero for blank.
pub open spec fn em_width(b: u8) -> int {
    if b == BLANK {
        0
    } else {
        b - 48
    }
}

/// A 24-byte leader is valid: its three numeral fields are all digits, its
/// four entry-map bytes are digits or blanks, and the base address of field
/// data leaves the directory a non-negative size.
pub open spec fn leader_bytes_ok(s: Seq<u8>) -> bool {
    &&& dec_digits(s.subrange(0, 5))
    &&& dec_digits(s.subrange(10, 12))
    &&& dec_digits(s.subrange(12, 17))
    &&& em_byte_ok(s[20])
    &&& em_byte_ok(s[21])
    &&& em_byte_ok(s[22])
    &&& em_byte_ok(s[23])
    &&& dec_value(s.subrange(12, 17)) > 24
}

/// The directory's column widths, decoded from the last four leader bytes.
#[derive(Clone, Copy, Debug, PartialEq, Eq, Structural)]
pub struct EntryMap {
    pub size_of_length: usize,
    pub size_of_position: usize,
    pub reserved: usize,
    pub size_of_tag: usize,
}

impl EntryMap {
    /// Every width is a single decimal digit's value.
    pub open spec fn wf(&self) -> bool {
        &&& self.size_of_length <= 9
        &&& self.size_of_position <= 9
        &&& self.reserved <= 9
        &&& self.size_of_tag <= 9
    }

    /// Width of a directory entry's length column.
    pub fn size_of_length(&self) -> (w: usize)
        ensures
            w == self.size_of_length,
    {
        self.size_of_length
    }

    /// Width of a directory entry's position column.
    pub fn size_of_position(&self) -> (w: usize)
        ensures
            w == self.size_of_position,
    {
        self.size_of_position
    }

    /// Width of a directory entry's tag column.
    pub fn size_of_tag(&self) -> (w: usize)
        ensures
            w == self.size_of_tag,
    {
        self.size_of_tag
    }
}

/// A decoded record leader.
#[derive(Clone, Debug)]
pub struct RawHeader {
    pub record_length: usize,
    pub interchange_level: u8,
    pub leader_identifier: u8,
    pub in_line_code_identifier: u8,
    pub version_number: u8,
    pub application_indicator: u8,
    pub field_control_length: usize,
    pub base_address_of_field_data: usize,
    pub extended_char_set_indicator: Vec<u8>,
    pub entry_map: EntryMap,
}

impl RawHeader {
    /// Total byte length of the record, leader and directory included.
    pub fn record_length(&self) -> (n: usize)
        ensures
            n == self.record_length,
    {
        self.record_length
    }

    /// `'L'` for a Data Descriptive Record, `'D'` for a Data Record.
    pub fn leader_identifier(&self) -> (c: char)
        ensures
            c == self.leader_identifier as char,
    {
        self.leader_identifier as char
    }

    pub fn in_line_code_identifier(&self) -> (c: char)
        ensures
            c == self.in_line_code_identifier as char,
    {
        self.in_line_code_identifier as char
    }

    pub fn interchange_level(&self) -> (c: char)
        ensures
            c == self.interchange_level as char,
    {
        self.interchange_level as char
    }

    pub fn version_number(&self) -> (c: char)
        ensures
            c == self.version_number as char,
    {
        self.version_number as char
    }

    pub fn field_control_length(&self) -> (n: usize)
        ensures
            n == self.field_control_length,
    {
        self.field_control_length
    }

    /// Offset, relative to the record's start, where the field area begins.
    pub fn base_address_of_field_data(&self) -> (n: usize)
        ensures
            n == self.base_address_of_field_data,
    {
        self.base_address_of_field_data
    }
}

/// The entry map a leader's last four bytes declare.
pub open spec fn spec_entry_map(s: Seq<u8>) -> EntryMap {
    EntryMap {
        size_of_length: em_width(s[20]) as usize,
        size_of_position: em_width(s[21]) as usize,
        reserved: em_width(s[22]) as usize,
        size_of_tag: em_width(s[23]) as usize,
    }
}

/// The decoded leader's fields agree with the 24 bytes `s`.
pub open spec fn leader_matches(h: RawHeader, s: Seq<u8>) -> bool {
    &&& h.record_length == dec_value(s.subrange(0, 5))
    &&& h.interchange_level == s[5]
    &&& h.leader_identifier == s[6]
    &&& h.in_line_code_identifier == s[7]
    &&& h.version_number == s[8]
    &&& h.application_indicator == s[9]
    &&& h.field_control_length == dec_value(s.subrange(10, 12))
    &&& h.base_address_of_field_data == dec_value(s.subrange(12, 17))
    &&& h.extended_char_set_indicator@ == s.subrange(17, 20)
    &&& h.entry_map.size_of_length == em_width(s[20])
    &&& h.entry_map.size_of_position == em_width(s[21])
    &&& h.entry_map.reserved == em_width(s[22])
    &&& h.entry_map.size_of_tag == em_width(s[23])
}

/// Decodes the 24 leader bytes.  Succeeds exactly on valid leaders; every
/// decoded leader has `base_address_of_field_data > 24` and entry-map widths
/// of at most nine.
pub fn decode_leader(bytes: &[u8]) -> (r: Result<RawHeader, ParseError>)
    requires
        bytes@.len() == 24,
    ensures
        r is Ok <==> leader_bytes_ok(bytes@),
        r is Err ==> (r matches Err(e) && e == ParseError::MalformedLeader),
        r matches Ok(h) ==> leader_matches(h, bytes@) && h.entry_map.wf()
            && h.base_address_of_field_data > 24,
{
    let record_length = match parse_decimal(slice_subrange(bytes, 0, 5)) {
        Some(v) => v,
        None => {
            proof {
                if dec_digits(bytes@.subrange(0, 5)) {
                    lemma_small_dec_fits(bytes@.subrange(0, 5));
                }
            }
            return Err(ParseError::MalformedLeader);
        },
    };
    let field_control_length = match parse_decimal(slice_subrange(bytes, 10, 12)) {
        Some(v) => v,
        None => {
            proof {
                if dec_digits(bytes@.subrange(10, 12)) {
                    lemma_small_dec_fits(bytes@.subrange(10, 12));
                }
            }
            return Err(ParseError::MalformedLeader);
        },
    };
    let base_address_of_field_data = match parse_decimal(slice_subrange(bytes, 12, 17)) {
        Some(v) => v,
        None => {
            proof {
                if dec_digits(bytes@.subrange(12, 17)) {
                    lemma_small_dec_fits(bytes@.subrange(12, 17));
                }
            }
            return Err(ParseError::MalformedLeader);
        },
    };
    let size_of_length = match em_width_of(bytes[20]) {
        Some(w) => w,
        None => {
            return Err(ParseError::MalformedLeader);
        },
    };
    let size_of_position = match em_width_of(bytes[21]) {
        Some(w) => w,
        None => {
            return Err(ParseError::MalformedLeader);
        },
    };
    let reserved = match em_width_of(bytes[22]) {
        Some(w) => w,
        None => {
            return Err(ParseError::MalformedLeader);
        },
    };
    let size_of_tag = match em_width_of(bytes[23]) {
        Some(w) => w,
        None => {
            return Err(ParseError::MalformedLeader);
        },
    };
    if base_address_of_field_data <= 24 {
        return Err(ParseError::MalformedLeader);
    }
    let extended = vstd::slice::slice_to_vec(slice_subrange(bytes, 17, 20));
    Ok(RawHeader {
        record_length,
        interchange_level: bytes[5],
        leader_identifier: bytes[6],
        in_line_code_identifier: bytes[7],
        version_number: bytes[8],
        application_indicator: bytes[9],
        field_control_length,
        base_address_of_field_data,
        extended_char_set_indicator: extended,
        entry_map: EntryMap { size_of_length, size_of_position, reserved, size_of_tag },
    })
}

/// A digit run of at most nine bytes always fits a `usize`.
proof fn lemma_small_dec_fits(s: Seq<u8>)
    requires
        s.len() <= 9,
        dec_digits(s),
    ensures
        dec_value(s) <= usize::MAX,
{
    lemma_dec_value_bound(s);
    crate::digits::lemma_pow10_mono(s.len(), 9);
    reveal_with_fuel(pow10, 10);
    assert(pow10(9) == 1000000000);
}

/// The width a single entry-map byte denotes, or `None` when the byte is
/// neither a digit nor a blank.
fn em_width_of(b: u8) -> (r: Option<usize>)
    ensures
        r is Some <==> em_byte_ok(b),
        r matches Some(w) ==> w == em_width(b) && w <= 9,
{
    if b >= 48 && b <= 57 {
        Some((b - 48) as usize)
    } else if b == BLANK {
        Some(0)
    } else {
        None
    }
}

/// Reads and decodes one leader from the cursor.  On success the returned
/// size is the directory's byte span, terminator included.
pub fn read_header(cursor: &mut ByteCursor) -> (r: Result<(RawHeader, usize), ParseError>)
    requires
        old(cursor).wf(),
    ensures
        final(cursor).wf(),
        final(cursor).stream() == old(cursor).stream(),
        ({
            let s = old(cursor).stream();
            let p = old(cursor).spec_position();
            &&& (r matches Err(e) && e == ParseError::UnexpectedEndOfStream) <==> p + 24 > s.len()
            &&& (r matches Err(e) && e == ParseError::MalformedLeader) <==> p + 24 <= s.len()
                && !leader_bytes_ok(s.subrange(p, p + 24))
            &&& r is Ok <==> p + 24 <= s.len() && leader_bytes_ok(s.subrange(p, p + 24))
            &&& r matches Ok(pair) ==> leader_matches(pair.0, s.subrange(p, p + 24))
                && pair.0.entry_map.wf() && pair.0.base_address_of_field_data > 24
                && pair.1 == pair.0.base_address_of_field_data - 24
            &&& r is Ok ==> final(cursor).spec_position() == p + 24
            &&& (r matches Err(e) && e == ParseError::UnexpectedEndOfStream)
                ==> *final(cursor) == *old(cursor)
            &&& (r matches Err(e) && e == ParseError::MalformedLeader)
                ==> final(cursor).spec_position() == p + 24
        }),
{
    let bytes = match cursor.read_exact(24) {
        Ok(b) => b,
        Err(e) => {
            return Err(e);
        },
    };
    let header = match decode_leader(bytes.as_slice()) {
        Ok(h) => h,
        Err(e) => {
            return Err(e);
        },
    };
    let directory_size = header.base_address_of_field_data - 24;
    Ok((header, directory_size))
}

} // verus!
