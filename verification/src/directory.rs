//! The record directory: one (tag, length, position) triple per field.
//!
//! The directory follows the leader.  Its entries share one fixed layout,
//! given by the leader's entry map: `size_of_tag` tag bytes, then
//! `size_of_length` digits of length, then `size_of_position` digits of
//! position.  The triples exactly exhaust the directory's bytes but for one
//! trailing field-terminator byte, and their order is the order in which the
//! fields stand in the field area.

use crate::cursor::ByteCursor;
use crate::digits::dec_digits;
use crate::digits::dec_seq;
use crate::digits::dec_value;
use crate::digits::encode_decimal;
use crate::digits::lemma_dec_seq_len;
use crate::digits::lemma_dec_seq_value;
use crate::digits::lemma_dec_value_bound;
use crate::digits::lemma_pow10_mono;
use crate::digits::parse_decimal;
use crate::digits::pow10;
use crate::errors::EntryIssue;
use crate::errors::ParseError;
use crate::leader::EntryMap;
use crate::leader::RawHeader;
use vstd::arithmetic::div_mod::lemma_div_multiples_vanish;
use vstd::arithmetic::div_mod::lemma_fundamental_div_mod;
use vstd::arithmetic::div_mod::lemma_mod_multiples_basic;
use vstd::arithmetic::mul::lemma_mul_inequality;
use vstd::prelude::*;
use vstd::slice::slice_subrange;
use vstd::slice::slice_to_vec;

verus! {

/// The byte that closes the directory and every field, `0x1E`.
pub const FIELD_TERMINATOR: u8 = 30;

/// One directory entry: where one field's bytes stand in the field area.
#[derive(Clone, Debug)]
pub struct DirEntry {
    /// The field's tag, `size_of_tag` bytes wide.
    pub tag: Vec<u8>,
    /// Byte span of the field's data, its trailing terminator included.
    pub length: usize,
    /// Offset of the field's first byte from the start of the field area.
    pub position: usize,
}

/// Bytes one directory entry occupies: tag, length and position columns.
pub open spec fn entry_width(em: EntryMap) -> int {
    em.size_of_tag + em.size_of_length + em.size_of_position
}

/// The directory's size fits whole entries plus the one terminator byte.
pub open spec fn dir_aligned(size: int, ew: int) -> bool {
    if ew == 0 {
        size == 1
    } else {
        (size - 1) % ew == 0
    }
}

/// How many entries a directory of `size` bytes holds.
pub open spec fn dir_entry_count(size: int, ew: int) -> int {
    if ew == 0 {
        0
    } else {
        (size - 1) / ew
    }
}

/// The tag column of entry `i`.
pub open spec fn tag_bytes(s: Seq<u8>, em: EntryMap, i: int) -> Seq<u8> {
    s.subrange(i * entry_width(em), i * entry_width(em) + em.size_of_tag)
}

/// The length column of entry `i`.
pub open spec fn length_bytes(s: Seq<u8>, em: EntryMap, i: int) -> Seq<u8> {
    s.subrange(
        i * entry_width(em) + em.size_of_tag,
        i * entry_width(em) + em.size_of_tag + em.size_of_length,
    )
}

/// The position column of entry `i`.
pub open spec fn position_bytes(s: Seq<u8>, em: EntryMap, i: int) -> Seq<u8> {
    s.subrange(
        i * entry_width(em) + em.size_of_tag + em.size_of_length,
        i * entry_width(em) + entry_width(em),
    )
}

/// Entry `i`'s length and position columns are strict decimals.
pub open spec fn entry_ok(s: Seq<u8>, em: EntryMap, i: int) -> bool {
    dec_digits(length_bytes(s, em, i)) && dec_digits(position_bytes(s, em, i))
}

/// Every entry of the directory bytes `s` decodes.
pub open spec fn entries_ok(s: Seq<u8>, em: EntryMap) -> bool {
    forall|i: int|
        0 <= i < dir_entry_count(s.len() as int, entry_width(em)) ==> entry_ok(s, em, i)
}

/// The directory bytes `s` decode in full: non-empty, aligned, every entry's
/// numbers strict decimals, and the final byte the field terminator.
pub open spec fn dir_ok(s: Seq<u8>, em: EntryMap) -> bool {
    &&& s.len() >= 1
    &&& dir_aligned(s.len() as int, entry_width(em))
    &&& entries_ok(s, em)
    &&& s.last() == FIELD_TERMINATOR
}

/// The decoded entry `e` agrees with entry `i` of the directory bytes `s`.
pub open spec fn entry_matches(e: DirEntry, s: Seq<u8>, em: EntryMap, i: int) -> bool {
    &&& e.tag@ == tag_bytes(s, em, i)
    &&& e.length == dec_value(length_bytes(s, em, i))
    &&& e.position == dec_value(position_bytes(s, em, i))
}

/// Decodes a whole directory region, terminator byte included.
///
/// Succeeds exactly when the region is non-empty, its size minus the
/// terminator is a whole number of entries, every entry's length and
/// position are strict decimals, and the final byte is the field
/// terminator; the entries come back in directory order.
pub fn decode_directory(bytes: &[u8], em: &EntryMap) -> (r: Result<Vec<DirEntry>, ParseError>)
    requires
        em.wf(),
    ensures
        ({
            let s = bytes@;
            let ew = entry_width(*em);
            let n = dir_entry_count(s.len() as int, ew);
            &&& (r matches Err(e) && e == ParseError::EmptyDirectory) <==> s.len() == 0
            &&& (r matches Err(e) && e == ParseError::MisalignedDirectory) <==> s.len() >= 1
                && !dir_aligned(s.len() as int, ew)
            &&& (r matches Err(e) && e matches ParseError::InvalidDirectoryEntry(_)) <==> s.len()
                >= 1 && dir_aligned(s.len() as int, ew) && !entries_ok(s, *em)
            &&& (r matches Err(e) && e == ParseError::MissingFieldTerminator) <==> s.len() >= 1
                && dir_aligned(s.len() as int, ew) && entries_ok(s, *em) && s.last()
                != FIELD_TERMINATOR
            &&& r is Ok <==> dir_ok(s, *em)
            &&& r matches Ok(entries) ==> entries@.len() == n && entries@.len() * ew == s.len() - 1
                && forall|i: int| 0 <= i < n ==> entry_matches(#[trigger] entries@[i], s, *em, i)
            &&& r matches Err(e) ==> (e matches ParseError::InvalidDirectoryEntry(iss)
                ==> exists|i: int|
                    {
                        &&& 0 <= i < n
                        &&& !#[trigger] entry_ok(s, *em, i)
                        &&& forall|j: int| 0 <= j < i ==> entry_ok(s, *em, j)
                        &&& iss == if !dec_digits(length_bytes(s, *em, i)) {
                            EntryIssue::BadLength
                        } else {
                            EntryIssue::BadPosition
                        }
                    })
        }),
{
    let size = bytes.len();
    if size == 0 {
        return Err(ParseError::EmptyDirectory);
    }
    let ew = em.size_of_tag + em.size_of_length + em.size_of_position;
    let data_len = size - 1;
    if ew == 0 {
        if data_len != 0 {
            return Err(ParseError::MisalignedDirectory);
        }
    } else if data_len % ew != 0 {
        return Err(ParseError::MisalignedDirectory);
    }
    let n = if ew == 0 {
        0
    } else {
        proof {
            lemma_fundamental_div_mod(data_len as int, ew as int);
        }
        data_len / ew
    };
    proof {
        if ew != 0 {
            lemma_fundamental_div_mod(data_len as int, ew as int);
            vstd::arithmetic::mul::lemma_mul_is_commutative(ew as int, data_len as int / ew as int);
        }
        assert(n * ew == data_len as int);
    }
    let ghost s = bytes@;
    let ghost gem = *em;
    let mut entries: Vec<DirEntry> = Vec::new();
    let mut i: usize = 0;
    while i < n
        invariant
            em.wf(),
            gem == *em,
            s == bytes@,
            s.len() == size,
            size >= 1,
            ew == entry_width(gem),
            ew > 0 ==> n == dir_entry_count(size as int, ew as int),
            ew == 0 ==> n == 0,
            n * ew == size - 1,
            dir_aligned(size as int, ew as int),
            0 <= i <= n,
            entries@.len() == i,
            forall|j: int| 0 <= j < i ==> entry_ok(s, gem, j),
            forall|j: int| 0 <= j < i ==> entry_matches(#[trigger] entries@[j], s, gem, j),
        decreases n - i,
    {
        proof {
            lemma_mul_inequality(i + 1 as int, n as int, ew as int);
            assert((i + 1) * ew == i * ew + ew) by (nonlinear_arith);
            assert(i * ew >= 0) by (nonlinear_arith)
                requires
                    i >= 0,
                    ew >= 0,
            ;
        }
        let off = i * ew;
        let tag_end = off + em.size_of_tag;
        let len_end = tag_end + em.size_of_length;
        let pos_end = len_end + em.size_of_position;
        proof {
            assert(tag_bytes(s, gem, i as int) == s.subrange(off as int, tag_end as int));
            assert(length_bytes(s, gem, i as int) == s.subrange(tag_end as int, len_end as int));
            assert(position_bytes(s, gem, i as int) == s.subrange(len_end as int, pos_end as int));
        }
        let tag = slice_to_vec(slice_subrange(bytes, off, tag_end));
        let length = match parse_decimal(slice_subrange(bytes, tag_end, len_end)) {
            Some(v) => v,
            None => {
                proof {
                    if dec_digits(length_bytes(s, gem, i as int)) {
                        lemma_small_run_fits(length_bytes(s, gem, i as int));
                    }
                    assert(!entry_ok(s, gem, i as int));
                    assert(!entries_ok(s, gem));
                }
                return Err(ParseError::InvalidDirectoryEntry(EntryIssue::BadLength));
            },
        };
        let position = match parse_decimal(slice_subrange(bytes, len_end, pos_end)) {
            Some(v) => v,
            None => {
                proof {
                    if dec_digits(position_bytes(s, gem, i as int)) {
                        lemma_small_run_fits(position_bytes(s, gem, i as int));
                    }
                    assert(!entry_ok(s, gem, i as int));
                    assert(!entries_ok(s, gem));
                }
                return Err(ParseError::InvalidDirectoryEntry(EntryIssue::BadPosition));
            },
        };
        entries.push(DirEntry { tag, length, position });
        i = i + 1;
    }
    if bytes[size - 1] != FIELD_TERMINATOR {
        return Err(ParseError::MissingFieldTerminator);
    }
    Ok(entries)
}

/// A digit run of at most nine bytes always fits a `usize`.
proof fn lemma_small_run_fits(s: Seq<u8>)
    requires
        s.len() <= 9,
        dec_digits(s),
    ensures
        dec_value(s) <= usize::MAX,
{
    lemma_dec_value_bound(s);
    lemma_pow10_mono(s.len(), 9);
    reveal_with_fuel(pow10, 10);
    assert(pow10(9) == 1000000000);
}

/// The byte image of one entry: tag, then zero-padded length and position.
pub open spec fn spec_encode_entry(e: DirEntry, em: EntryMap) -> Seq<u8> {
    e.tag@ + dec_seq(e.length as int, em.size_of_length as nat) + dec_seq(
        e.position as int,
        em.size_of_position as nat,
    )
}

/// The byte image of a run of entries, in directory order.
pub open spec fn spec_encode_entries(es: Seq<DirEntry>, em: EntryMap) -> Seq<u8>
    decreases es.len(),
{
    if es.len() == 0 {
        Seq::<u8>::empty()
    } else {
        spec_encode_entries(es.drop_last(), em) + spec_encode_entry(es.last(), em)
    }
}

/// The byte image of a whole directory: the entries, then the terminator.
pub open spec fn spec_encode_directory(es: Seq<DirEntry>, em: EntryMap) -> Seq<u8> {
    spec_encode_entries(es, em) + seq![FIELD_TERMINATOR]
}

/// The entries fit the entry map's columns: every tag is exactly tag-width,
/// every number fits its column, and the number columns are at least one
/// digit wide.
pub open spec fn encodable(es: Seq<DirEntry>, em: EntryMap) -> bool {
    &&& em.wf()
    &&& em.size_of_length >= 1
    &&& em.size_of_position >= 1
    &&& forall|i: int| 0 <= i < es.len() ==> (#[trigger] es[i]).tag@.len() == em.size_of_tag
    &&& forall|i: int|
        0 <= i < es.len() ==> (#[trigger] es[i]).length < pow10(em.size_of_length as nat)
    &&& forall|i: int|
        0 <= i < es.len() ==> (#[trigger] es[i]).position < pow10(em.size_of_position as nat)
}

proof fn lemma_encode_entries_len(es: Seq<DirEntry>, em: EntryMap)
    requires
        encodable(es, em),
    ensures
        spec_encode_entries(es, em).len() == es.len() * entry_width(em),
    decreases es.len(),
{
    let ew = entry_width(em);
    let n = es.len() as int;
    if es.len() == 0 {
        assert(0 * ew == 0) by (nonlinear_arith);
    } else {
        lemma_encode_entries_len(es.drop_last(), em);
        lemma_dec_seq_len(es.last().length as int, em.size_of_length as nat);
        lemma_dec_seq_len(es.last().position as int, em.size_of_position as nat);
        assert(es.last() == es[n - 1]);
        assert((n - 1) * ew + ew == n * ew) by (nonlinear_arith);
    }
}

proof fn lemma_encode_entries_slice(es: Seq<DirEntry>, em: EntryMap, i: int)
    requires
        encodable(es, em),
        0 <= i < es.len(),
    ensures
        spec_encode_entries(es, em).subrange(
            i * entry_width(em),
            (i + 1) * entry_width(em),
        ) == spec_encode_entry(es[i], em),
    decreases es.len(),
{
    let ew = entry_width(em);
    let n = es.len() as int;
    let body = spec_encode_entries(es, em);
    lemma_encode_entries_len(es, em);
    lemma_encode_entries_len(es.drop_last(), em);
    lemma_dec_seq_len(es[i].length as int, em.size_of_length as nat);
    lemma_dec_seq_len(es[i].position as int, em.size_of_position as nat);
    assert((n - 1) * ew + ew == n * ew) by (nonlinear_arith);
    if i == n - 1 {
        assert(es.last() == es[i]);
        assert(body.subrange(i * ew, (i + 1) * ew) =~= spec_encode_entry(es[i], em));
    } else {
        lemma_encode_entries_slice(es.drop_last(), em, i);
        assert(es.drop_last()[i] == es[i]);
        assert((i + 1) * ew <= (n - 1) * ew) by (nonlinear_arith)
            requires
                0 <= i < n - 1,
                ew >= 0,
        ;
        assert(i * ew >= 0) by (nonlinear_arith)
            requires
                0 <= i,
                ew >= 0,
        ;
        assert((i + 1) * ew == i * ew + ew) by (nonlinear_arith);
        assert(body.subrange(i * ew, (i + 1) * ew) =~= spec_encode_entries(
            es.drop_last(),
            em,
        ).subrange(i * ew, (i + 1) * ew));
    }
}

/// Encoding any encodable entries and decoding the image back yields the
/// identical sequence of (tag, length, position) triples: the image is a
/// valid directory whose every decoded column equals the entry it came from.
pub proof fn lemma_directory_round_trip(es: Seq<DirEntry>, em: EntryMap)
    requires
        encodable(es, em),
    ensures
        ({
            let s = spec_encode_directory(es, em);
            &&& s.len() == es.len() * entry_width(em) + 1
            &&& dir_ok(s, em)
            &&& dir_entry_count(s.len() as int, entry_width(em)) == es.len()
            &&& forall|i: int| 0 <= i < es.len() ==> entry_matches(#[trigger] es[i], s, em, i)
        }),
{
    let ew = entry_width(em);
    let n = es.len() as int;
    let body = spec_encode_entries(es, em);
    let s = spec_encode_directory(es, em);
    lemma_encode_entries_len(es, em);
    assert(s.len() == n * ew + 1);
    assert(n * ew >= 0) by (nonlinear_arith)
        requires
            n >= 0,
            ew >= 0,
    ;
    if ew == 0 {
        assert(n * ew == 0) by (nonlinear_arith)
            requires
                ew == 0,
        ;
        assert(dir_aligned(s.len() as int, ew));
        assert(dir_entry_count(s.len() as int, ew) == n);
    } else {
        lemma_mod_multiples_basic(n, ew);
        lemma_div_multiples_vanish(n, ew);
        vstd::arithmetic::mul::lemma_mul_is_commutative(n, ew);
        assert(dir_aligned(s.len() as int, ew));
        assert(dir_entry_count(s.len() as int, ew) == n);
    }
    assert(s.last() == FIELD_TERMINATOR);
    assert forall|i: int| 0 <= i < n implies entry_matches(#[trigger] es[i], s, em, i)
        && entry_ok(s, em, i) by {
        lemma_encode_entries_slice(es, em, i);
        lemma_dec_seq_value(es[i].length as int, em.size_of_length as nat);
        lemma_dec_seq_value(es[i].position as int, em.size_of_position as nat);
        assert((i + 1) * ew <= n * ew) by (nonlinear_arith)
            requires
                0 <= i < n,
                ew >= 0,
        ;
        assert(i * ew >= 0) by (nonlinear_arith)
            requires
                0 <= i,
                ew >= 0,
        ;
        assert((i + 1) * ew == i * ew + ew) by (nonlinear_arith);
        let img = spec_encode_entry(es[i], em);
        let tw = em.size_of_tag as int;
        let lw = em.size_of_length as int;
        let pw = em.size_of_position as int;
        assert(s.subrange(i * ew, (i + 1) * ew) =~= body.subrange(i * ew, (i + 1) * ew));
        assert(tag_bytes(s, em, i) =~= img.subrange(0, tw));
        assert(img.subrange(0, tw) =~= es[i].tag@);
        assert(length_bytes(s, em, i) =~= img.subrange(tw, tw + lw));
        assert(img.subrange(tw, tw + lw) =~= dec_seq(es[i].length as int, em.size_of_length as nat));
        assert(position_bytes(s, em, i) =~= img.subrange(tw + lw, tw + lw + pw));
        assert(img.subrange(tw + lw, tw + lw + pw) =~= dec_seq(
            es[i].position as int,
            em.size_of_position as nat,
        ));
    }
    assert forall|i: int|
        0 <= i < dir_entry_count(s.len() as int, ew) implies entry_ok(s, em, i) by {
        assert(entry_matches(es[i], s, em, i));
    }
    assert(entries_ok(s, em));
}

/// Encodes entries as one directory image, terminator included: the inverse
/// of `decode_directory` on encodable entries.
pub fn encode_directory(entries: &Vec<DirEntry>, em: &EntryMap) -> (r: Vec<u8>)
    requires
        encodable(entries@, *em),
    ensures
        r@ == spec_encode_directory(entries@, *em),
{
    let mut out: Vec<u8> = Vec::new();
    let n = entries.len();
    let mut i: usize = 0;
    while i < n
        invariant
            encodable(entries@, *em),
            n == entries@.len(),
            0 <= i <= n,
            out@ == spec_encode_entries(entries@.subrange(0, i as int), *em),
        decreases n - i,
    {
        let e = &entries[i];
        let mut tag = slice_to_vec(e.tag.as_slice());
        out.append(&mut tag);
        let mut len_col = encode_decimal(e.length, em.size_of_length);
        out.append(&mut len_col);
        let mut pos_col = encode_decimal(e.position, em.size_of_position);
        out.append(&mut pos_col);
        proof {
            assert(entries@.subrange(0, i + 1).drop_last() =~= entries@.subrange(0, i as int));
            assert(entries@.subrange(0, i + 1).last() == entries@[i as int]);
            assert(out@ =~= spec_encode_entries(entries@.subrange(0, i + 1), *em));
        }
        i = i + 1;
    }
    out.push(FIELD_TERMINATOR);
    proof {
        assert(entries@.subrange(0, n as int) =~= entries@);
        assert(out@ =~= spec_encode_directory(entries@, *em));
    }
    out
}

/// Reads and decodes one directory of `directory_size` bytes from the cursor.
/// Reads and decodes one directory of `directory_size` bytes from the
/// cursor.  An empty or misaligned size is rejected before anything is
/// consumed; the region is read only once its size could be right.
pub fn read_directory(cursor: &mut ByteCursor, header: &RawHeader, directory_size: usize) -> (r:
    Result<Vec<DirEntry>, ParseError>)
    requires
        old(cursor).wf(),
        header.entry_map.wf(),
    ensures
        final(cursor).wf(),
        final(cursor).stream() == old(cursor).stream(),
        ({
            let s = old(cursor).stream();
            let p = old(cursor).spec_position();
            let region = s.subrange(p, p + directory_size);
            let em = header.entry_map;
            let aligned = directory_size > 0 && dir_aligned(directory_size as int, entry_width(em));
            &&& (r matches Err(e) && e == ParseError::EmptyDirectory) <==> directory_size == 0
            &&& (r matches Err(e) && e == ParseError::MisalignedDirectory) <==> directory_size > 0
                && !dir_aligned(directory_size as int, entry_width(em))
            &&& (r matches Err(e) && e == ParseError::UnexpectedEndOfStream) <==> aligned && p
                + directory_size > s.len()
            &&& !aligned || p + directory_size > s.len() ==> *final(cursor) == *old(cursor)
            &&& aligned && p + directory_size <= s.len() ==> {
                &&& final(cursor).spec_position() == p + directory_size
                &&& r is Ok <==> dir_ok(region, em)
                &&& (r matches Err(e) && e matches ParseError::InvalidDirectoryEntry(_))
                    <==> !entries_ok(region, em)
                &&& (r matches Err(e) && e == ParseError::MissingFieldTerminator) <==> entries_ok(
                    region,
                    em,
                ) && region.last() != FIELD_TERMINATOR
                &&& r matches Ok(entries) ==> entries@.len() == dir_entry_count(
                    directory_size as int,
                    entry_width(em),
                ) && forall|i: int|
                    0 <= i < entries@.len() ==> entry_matches(#[trigger] entries@[i], region, em, i)
            }
        }),
{
    if directory_size == 0 {
        return Err(ParseError::EmptyDirectory);
    }
    let ew = em_sum(&header.entry_map);
    let data_len = directory_size - 1;
    if ew == 0 {
        if data_len != 0 {
            return Err(ParseError::MisalignedDirectory);
        }
    } else if data_len % ew != 0 {
        return Err(ParseError::MisalignedDirectory);
    }
    let bytes = match cursor.read_exact(directory_size) {
        Ok(b) => b,
        Err(e) => {
            return Err(e);
        },
    };
    decode_directory(bytes.as_slice(), &header.entry_map)
}

/// The exec sum of an entry map's column widths.
fn em_sum(em: &EntryMap) -> (w: usize)
    requires
        em.wf(),
    ensures
        w == entry_width(*em),
{
    em.size_of_tag + em.size_of_length + em.size_of_position
}

} // verus!
