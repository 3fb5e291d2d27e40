//! The record reader: the top-level driver of the decoder.
//!
//! A reader owns one cursor and one dictionary.  Its first record must be
//! the Data Descriptive Record, whose fields populate the dictionary; every
//! later record is a Data Record whose fields are decoded by the grammar
//! the dictionary holds for their tag.  The two-state machine makes
//! "dictionary exists before any data field decode" an invariant rather
//! than a convention.

use crate::cursor::ByteCursor;
use crate::dictionary::spec_lookup;
use crate::dictionary::FieldDictionary;
use crate::digits::dec_value;
use crate::directory::decode_directory;
use crate::directory::dir_aligned;
use crate::directory::dir_entry_count;
use crate::directory::entries_ok;
use crate::directory::dir_ok;
use crate::directory::entry_matches;
use crate::directory::entry_width;
use crate::directory::tag_bytes;
use crate::directory::length_bytes;
use crate::directory::position_bytes;
use crate::directory::DirEntry;
use crate::directory::FIELD_TERMINATOR;
use crate::errors::ParseError;
use crate::fields::decode_field_data;
use crate::fields::spec_decode_units;
use crate::fields::units_of;
use crate::fields::SubfieldModel;
use crate::fields::SubfieldValue;
use crate::grammar::decode_field_type;
use crate::grammar::field_type_matches;
use crate::grammar::ftd_matches;
use crate::grammar::parse_field_type_data;
use crate::grammar::parse_format_controls;
use crate::grammar::split_on;
use crate::grammar::FieldType;
use crate::grammar::FieldTypeData;
use crate::grammar::FormatGrammar;
use crate::grammar::UNIT_TERMINATOR;
use crate::leader::leader_bytes_ok;
use crate::leader::leader_matches;
use crate::leader::spec_entry_map;
use crate::leader::read_header;
use crate::leader::RawHeader;
use vstd::prelude::*;
use vstd::slice::slice_subrange;
use vstd::slice::slice_to_vec;

verus! {

/// A Data Descriptive Record field's payload: what stands between the
/// 9-byte control sub-header and the final field terminator.
pub open spec fn ddr_payload(b: Seq<u8>) -> Seq<u8> {
    b.subrange(9, b.len() - 1)
}

/// One field's bytes are fit for the Data Descriptive Record: room for the
/// sub-header and terminator, the terminator in place, and at most three
/// unit-terminated components.
pub open spec fn ddr_field_ok(b: Seq<u8>) -> bool {
    &&& b.len() >= 10
    &&& b.last() == FIELD_TERMINATOR
    &&& split_on(ddr_payload(b), UNIT_TERMINATOR).len() <= 3
}

/// Decodes one Data Descriptive Record field's bytes into its control
/// sub-header and its three components.
pub fn parse_ddr_field(bytes: &[u8]) -> (r: Result<(FieldType, FieldTypeData), ParseError>)
    ensures
        r is Ok <==> ddr_field_ok(bytes@),
        (r matches Err(e) && e == ParseError::MissingFieldTerminator) <==> bytes@.len() >= 10
            && bytes@.last() != FIELD_TERMINATOR,
        (r matches Err(e) && e == ParseError::MalformedFormatControl) <==> bytes@.len() < 10 || (
        bytes@.len() >= 10 && bytes@.last() == FIELD_TERMINATOR && split_on(
            ddr_payload(bytes@),
            UNIT_TERMINATOR,
        ).len() > 3),
        r matches Ok(pair) ==> field_type_matches(pair.0, bytes@.subrange(0, 9)) && ftd_matches(
            pair.1,
            ddr_payload(bytes@),
        ),
{
    let n = bytes.len();
    if n < 10 {
        return Err(ParseError::MalformedFormatControl);
    }
    if bytes[n - 1] != FIELD_TERMINATOR {
        return Err(ParseError::MissingFieldTerminator);
    }
    let field_type = decode_field_type(slice_subrange(bytes, 0, 9));
    let data = match parse_field_type_data(slice_subrange(bytes, 9, n - 1)) {
        Ok(d) => d,
        Err(e) => {
            return Err(e);
        },
    };
    Ok((field_type, data))
}

/// Entry `i`'s declared position continues exactly where entry `i-1`'s
/// field ends: the fields stand back to back from the field area's start.
pub open spec fn entry_follows(es: Seq<DirEntry>, i: int) -> bool {
    es[i].position == if i == 0 {
        0
    } else {
        es[i - 1].position + es[i - 1].length
    }
}

/// Entry `i`'s field stands where the directory says, fits the stream, and
/// is a well-formed Data Descriptive Record field.
pub open spec fn ddr_entry_readable(s: Seq<u8>, base: int, es: Seq<DirEntry>, i: int) -> bool {
    &&& entry_follows(es, i)
    &&& base + es[i].position + es[i].length <= s.len()
    &&& ddr_field_ok(s.subrange(base + es[i].position, base + es[i].position + es[i].length))
}

/// Every entry's field can be read and decoded from the field area at
/// `base`.
pub open spec fn ddr_entries_readable(s: Seq<u8>, base: int, es: Seq<DirEntry>) -> bool {
    forall|i: int| 0 <= i < es.len() ==> #[trigger] ddr_entry_readable(s, base, es, i)
}

/// Reads the Data Descriptive Record's fields through the cursor, checking
/// each field's declared position, and returns their components in
/// directory order.  The cursor must stand at the start of the field area.
/// Succeeds exactly when every entry's field stands back to back where
/// declared, fits the stream, and is well-formed; on success exactly the
/// fields' bytes are consumed.
#[verifier::loop_isolation(false)]
pub fn read_field_types(cursor: &mut ByteCursor, fields: &Vec<DirEntry>) -> (r: Result<
    Vec<FieldTypeData>,
    ParseError,
>)
    requires
        old(cursor).wf(),
    ensures
        final(cursor).wf(),
        final(cursor).stream() == old(cursor).stream(),
        final(cursor).spec_position() >= old(cursor).spec_position(),
        r matches Err(e) ==> (e == ParseError::PositionMismatch || e
            == ParseError::UnexpectedEndOfStream || e == ParseError::MissingFieldTerminator || e
            == ParseError::MalformedFormatControl),
        ({
            let s = old(cursor).stream();
            let base = old(cursor).spec_position();
            let n = fields@.len() as int;
            &&& (r is Ok <==> ddr_entries_readable(s, base, fields@))
            &&& ((r matches Err(e) && e == ParseError::PositionMismatch) <==> exists|i: int|
                {
                    &&& 0 <= i < n
                    &&& !#[trigger] entry_follows(fields@, i)
                    &&& forall|j: int| 0 <= j < i ==> ddr_entry_readable(s, base, fields@, j)
                    &&& final(cursor).spec_position() == base + (if i == 0 {
                        0int
                    } else {
                        fields@[i - 1].position + fields@[i - 1].length
                    })
                })
            &&& r matches Ok(v) ==> {
                &&& v@.len() == n
                &&& forall|i: int|
                    0 <= i < n ==> ftd_matches(
                        #[trigger] v@[i],
                        ddr_payload(
                            s.subrange(
                                base + fields@[i].position,
                                base + fields@[i].position + fields@[i].length,
                            ),
                        ),
                    )
                &&& final(cursor).spec_position() == base + (if n == 0 {
                    0int
                } else {
                    fields@[n - 1].position + fields@[n - 1].length
                })
            }
        }),
{
    let ghost s = old(cursor).stream();
    let ghost base = old(cursor).spec_position();
    let n = fields.len();
    let initial_position = cursor.position();
    let mut out: Vec<FieldTypeData> = Vec::new();
    let mut i: usize = 0;
    while i < n
        invariant
            cursor.wf(),
            cursor.stream() == s,
            cursor.spec_position() == base + (if i == 0 {
                0int
            } else {
                fields@[i - 1].position + fields@[i - 1].length
            }),
            out@.len() == i,
            0 <= i <= n,
            forall|k: int| 0 <= k < i ==> #[trigger] ddr_entry_readable(s, base, fields@, k),
            forall|k: int|
                0 <= k < i ==> ftd_matches(
                    #[trigger] out@[k],
                    ddr_payload(
                        s.subrange(
                            base + fields@[k].position,
                            base + fields@[k].position + fields@[k].length,
                        ),
                    ),
                ),
        decreases n - i,
    {
        let entry = &fields[i];
        let expected = match initial_position.checked_add(entry.position) {
            Some(v) => v,
            None => {
                proof {
                    if i > 0 {
                        assert(ddr_entry_readable(s, base, fields@, i - 1));
                    }
                    assert(!entry_follows(fields@, i as int));
                    assert(!ddr_entry_readable(s, base, fields@, i as int));
                }
                return Err(ParseError::PositionMismatch);
            },
        };
        if cursor.position() != expected {
            proof {
                assert(!entry_follows(fields@, i as int));
                assert(!ddr_entry_readable(s, base, fields@, i as int));
            }
            return Err(ParseError::PositionMismatch);
        }
        proof {
            assert(entry_follows(fields@, i as int));
        }
        let bytes = match cursor.read_exact(entry.length) {
            Ok(b) => b,
            Err(e) => {
                proof {
                    assert(!ddr_entry_readable(s, base, fields@, i as int));
                    assert forall|k: int| 0 <= k < i implies #[trigger] entry_follows(
                        fields@,
                        k,
                    ) by {
                        assert(ddr_entry_readable(s, base, fields@, k));
                    }
                }
                return Err(e);
            },
        };
        let parsed = match parse_ddr_field(bytes.as_slice()) {
            Ok(p) => p,
            Err(e) => {
                proof {
                    assert(bytes@ == s.subrange(
                        base + fields@[i as int].position,
                        base + fields@[i as int].position + fields@[i as int].length,
                    ));
                    assert(!ddr_entry_readable(s, base, fields@, i as int));
                    assert forall|k: int| 0 <= k < i implies #[trigger] entry_follows(
                        fields@,
                        k,
                    ) by {
                        assert(ddr_entry_readable(s, base, fields@, k));
                    }
                }
                return Err(e);
            },
        };
        proof {
            assert(bytes@ == s.subrange(
                base + fields@[i as int].position,
                base + fields@[i as int].position + fields@[i as int].length,
            ));
            assert(ddr_entry_readable(s, base, fields@, i as int));
        }
        out.push(parsed.1);
        i = i + 1;
    }
    proof {
        assert forall|k: int| 0 <= k < n implies #[trigger] entry_follows(fields@, k) by {
            assert(ddr_entry_readable(s, base, fields@, k));
        }
    }
    Ok(out)
}

/// Total byte length of the first `k` directory entries' fields.
pub open spec fn lengths_sum(es: Seq<DirEntry>, k: int) -> int
    decreases k,
{
    if k <= 0 {
        0
    } else {
        lengths_sum(es, k - 1) + es[k - 1].length
    }
}

/// Consumes each directory entry's field bytes in order and hands them
/// back raw, without interpreting them.
#[verifier::loop_isolation(false)]
pub fn read_fields(cursor: &mut ByteCursor, directories: &Vec<DirEntry>) -> (r: Result<
    Vec<Vec<u8>>,
    ParseError,
>)
    requires
        old(cursor).wf(),
    ensures
        final(cursor).wf(),
        final(cursor).stream() == old(cursor).stream(),
        final(cursor).spec_position() >= old(cursor).spec_position(),
        ({
            let s = old(cursor).stream();
            let base = old(cursor).spec_position();
            let n = directories@.len() as int;
            &&& r is Ok <==> base + lengths_sum(directories@, n) <= s.len() && (forall|k: int|
                0 <= k <= n ==> base + #[trigger] lengths_sum(directories@, k) <= s.len())
            &&& r is Err ==> (r matches Err(e) && e == ParseError::UnexpectedEndOfStream)
            &&& r matches Ok(v) ==> v@.len() == n && forall|k: int|
                0 <= k < n ==> (#[trigger] v@[k])@ == s.subrange(
                    base + lengths_sum(directories@, k),
                    base + lengths_sum(directories@, k + 1),
                )
            &&& r is Ok ==> final(cursor).spec_position() == base + lengths_sum(directories@, n)
        }),
{
    let ghost s = old(cursor).stream();
    let ghost base = old(cursor).spec_position();
    let n = directories.len();
    let mut out: Vec<Vec<u8>> = Vec::new();
    let mut i: usize = 0;
    while i < n
        invariant
            cursor.wf(),
            cursor.stream() == s,
            0 <= i <= n,
            out@.len() == i,
            cursor.spec_position() == base + lengths_sum(directories@, i as int),
            cursor.spec_position() >= base,
            forall|k: int|
                0 <= k <= i ==> base + #[trigger] lengths_sum(directories@, k) <= s.len(),
            forall|k: int|
                0 <= k < i ==> (#[trigger] out@[k])@ == s.subrange(
                    base + lengths_sum(directories@, k),
                    base + lengths_sum(directories@, k + 1),
                ),
        decreases n - i,
    {
        let entry = &directories[i];
        let bytes = match cursor.read_exact(entry.length) {
            Ok(b) => b,
            Err(e) => {
                proof {
                    lemma_lengths_sum_mono(directories@, i as int, n as int);
                    assert(base + lengths_sum(directories@, i + 1) > s.len());
                }
                return Err(e);
            },
        };
        out.push(bytes);
        i = i + 1;
    }
    Ok(out)
}

/// Later prefixes of the length sum are never smaller.
proof fn lemma_lengths_sum_mono(es: Seq<DirEntry>, a: int, b: int)
    requires
        0 <= a <= b,
    ensures
        lengths_sum(es, a) <= lengths_sum(es, b),
    decreases b - a,
{
    if a < b {
        lemma_lengths_sum_mono(es, a, b - 1);
    }
}

/// Where the reader stands in its bootstrap.
#[derive(Clone, Copy, Debug, PartialEq, Eq, Structural)]
pub enum ReaderState {
    /// Nothing read yet: the next record must be the Data Descriptive
    /// Record.
    ExpectingDescriptiveRecord,
    /// The dictionary is built: every further record is a Data Record.
    ExpectingDataRecord,
    /// The stream ended cleanly at a record boundary.
    Exhausted,
}

/// One decoded field: its tag and its typed subfield values in order.
#[derive(Clone, Debug)]
pub struct DecodedField {
    pub tag: Vec<u8>,
    pub subfields: Vec<SubfieldValue>,
}

/// One decoded record: its leader and its fields in directory order.
#[derive(Clone, Debug)]
pub struct DecodedRecord {
    pub leader: RawHeader,
    pub fields: Vec<DecodedField>,
}

/// The grammar `g` is what field bytes `fb` of a Data Descriptive Record
/// declare: parsed format controls, or the single default subfield when
/// the format-control component is absent.
pub open spec fn ddr_grammar_matches(g: FormatGrammar, fb: Seq<u8>) -> bool {
    let parts = split_on(ddr_payload(fb), UNIT_TERMINATOR);
    let ad = if parts.len() >= 2 {
        parts[1]
    } else {
        Seq::<u8>::empty()
    };
    let fc = if parts.len() >= 3 {
        parts[2]
    } else {
        Seq::<u8>::empty()
    };
    if fc.len() == 0 {
        &&& g.subfields@.len() == 1
        &&& g.subfields@[0].name@ == crate::grammar::label_at(ad, 0)
        &&& g.subfields@[0].kind == crate::grammar::default_kind(fb[1])
        &&& g.subfields@[0].width is None
        &&& g.subfields@[0].repeat == 1
    } else {
        crate::grammar::grammar_matches(g, crate::grammar::fc_tokens(fc), ad)
    }
}

/// The decoded field `f` of a Data Record carries, for the dictionary
/// `dict`, exactly what the stream says: its field bytes stand at the
/// declared position, end in the field terminator, and its subfields are
/// the declared grammar's decoding of the payload.
pub open spec fn data_field_decoded(
    dict: FieldDictionary,
    s: Seq<u8>,
    fa: int,
    region: Seq<u8>,
    em: crate::leader::EntryMap,
    i: int,
    f: DecodedField,
) -> bool {
    let fstart = fa + dec_value(position_bytes(region, em, i));
    let flen = dec_value(length_bytes(region, em, i));
    let payload = s.subrange(fstart, fstart + flen - 1);
    &&& flen >= 1
    &&& fstart + flen <= s.len()
    &&& s[fstart + flen - 1] == FIELD_TERMINATOR
    &&& f.tag@ == tag_bytes(region, em, i)
    &&& (spec_lookup(dict.entries@, tag_bytes(region, em, i)) matches Option::Some(g)
        && spec_decode_units(payload, units_of(g.subfields@)) == Result::<
        Seq<SubfieldModel>,
        ParseError,
    >::Ok(f.subfields@.map_values(|v: SubfieldValue| v@)))
}

/// The directory's entry positions run back to back from the field
/// area's start, in directory order.
pub open spec fn region_contiguous(region: Seq<u8>, em: crate::leader::EntryMap, n: int) -> bool {
    forall|i: int|
        0 <= i < n ==> dec_value(#[trigger] position_bytes(region, em, i)) == (if i == 0 {
            0int
        } else {
            dec_value(position_bytes(region, em, i - 1)) + dec_value(length_bytes(region, em, i - 1))
        })
}

/// Every field's declared byte span lies inside the stream.
pub open spec fn region_fields_fit(
    s: Seq<u8>,
    fa: int,
    region: Seq<u8>,
    em: crate::leader::EntryMap,
    n: int,
) -> bool {
    forall|i: int|
        0 <= i < n ==> fa + dec_value(position_bytes(region, em, i)) + dec_value(
            #[trigger] length_bytes(region, em, i),
        ) <= s.len()
}

/// The field's bytes are a well-formed Data Descriptive Record field
/// whose array descriptor and format controls parse to a grammar.
pub open spec fn ddr_field_parses(fb: Seq<u8>) -> bool {
    let parts = split_on(ddr_payload(fb), UNIT_TERMINATOR);
    let ad = if parts.len() >= 2 {
        parts[1]
    } else {
        Seq::<u8>::empty()
    };
    let fc = if parts.len() >= 3 {
        parts[2]
    } else {
        Seq::<u8>::empty()
    };
    &&& ddr_field_ok(fb)
    &&& (if fc.len() == 0 {
        crate::grammar::labels_of(ad).len() <= 1
    } else {
        &&& crate::grammar::fc_outer_ok(fc)
        &&& crate::grammar::tokens_all_ok(crate::grammar::fc_tokens(fc))
        &&& (ad.len() == 0 || crate::grammar::labels_of(ad).len() == crate::grammar::fc_tokens(
            fc,
        ).len())
    })
}

/// Field `i` of the directory, read from the stream, parses as a Data
/// Descriptive Record field.
pub open spec fn ddr_field_at_parses(
    s: Seq<u8>,
    fa: int,
    region: Seq<u8>,
    em: crate::leader::EntryMap,
    i: int,
) -> bool {
    ddr_field_parses(
        s.subrange(
            fa + dec_value(position_bytes(region, em, i)),
            fa + dec_value(position_bytes(region, em, i)) + dec_value(
                length_bytes(region, em, i),
            ),
        ),
    )
}

/// Field `i` of a Data Record's directory ends in the field terminator,
/// its tag is declared, and its payload decodes under the declared
/// grammar.
pub open spec fn data_field_at_parses(
    dict: FieldDictionary,
    s: Seq<u8>,
    fa: int,
    region: Seq<u8>,
    em: crate::leader::EntryMap,
    i: int,
) -> bool {
    let fstart = fa + dec_value(position_bytes(region, em, i));
    let flen = dec_value(length_bytes(region, em, i));
    let payload = s.subrange(fstart, fstart + flen - 1);
    &&& flen >= 1
    &&& s[fstart + flen - 1] == FIELD_TERMINATOR
    &&& (spec_lookup(dict.entries@, tag_bytes(region, em, i)) matches Option::Some(g)
        && spec_decode_units(payload, units_of(g.subfields@)) is Ok)
}

/// A record's frame at position `p` of the stream is sound: a valid
/// leader, a decodable directory, entry positions running back to back,
/// and every field's bytes inside the stream.
pub open spec fn record_frame_ok(s: Seq<u8>, p: int) -> bool {
    let lb = s.subrange(p, p + 24);
    let ds = dec_value(s.subrange(p + 12, p + 17)) - 24;
    let region = s.subrange(p + 24, p + 24 + ds);
    let em = spec_entry_map(lb);
    let n = dir_entry_count(ds, entry_width(em));
    let fa = p + 24 + ds;
    &&& 0 <= p
    &&& p + 24 <= s.len()
    &&& leader_bytes_ok(lb)
    &&& p + 24 + ds <= s.len()
    &&& dir_ok(region, em)
    &&& region_contiguous(region, em, n)
    &&& region_fields_fit(s, fa, region, em, n)
}

/// One whole record stands at position `p` of the stream, decodable in
/// full by a reader in the given state: a sound frame, and every field
/// acceptable to the state's decoding — against the dictionary `dict`
/// when `building` is false.
pub open spec fn record_parses(s: Seq<u8>, p: int, building: bool, dict: FieldDictionary) -> bool {
    let lb = s.subrange(p, p + 24);
    let ds = dec_value(s.subrange(p + 12, p + 17)) - 24;
    let region = s.subrange(p + 24, p + 24 + ds);
    let em = spec_entry_map(lb);
    let n = dir_entry_count(ds, entry_width(em));
    let fa = p + 24 + ds;
    &&& record_frame_ok(s, p)
    &&& (building ==> forall|i: int|
        0 <= i < n ==> #[trigger] ddr_field_at_parses(s, fa, region, em, i))
    &&& (!building ==> forall|i: int|
        0 <= i < n ==> #[trigger] data_field_at_parses(dict, s, fa, region, em, i))
}

/// Field `i` of a Data Record ends in its terminator but references a tag
/// the dictionary never declared, while every earlier field decodes.
pub open spec fn undeclared_tag_at(
    dict: FieldDictionary,
    s: Seq<u8>,
    fa: int,
    region: Seq<u8>,
    em: crate::leader::EntryMap,
    i: int,
) -> bool {
    let fstart = fa + dec_value(position_bytes(region, em, i));
    let flen = dec_value(length_bytes(region, em, i));
    &&& flen >= 1
    &&& s[fstart + flen - 1] == FIELD_TERMINATOR
    &&& spec_lookup(dict.entries@, tag_bytes(region, em, i)) is None
    &&& forall|j: int| 0 <= j < i ==> #[trigger] data_field_at_parses(dict, s, fa, region, em, j)
}

/// The top-level driver: reads one logical record at a time, building the
/// field dictionary from the first record and applying it to the rest.
pub struct RecordReader {
    cursor: ByteCursor,
    state: ReaderState,
    dict: FieldDictionary,
}

impl RecordReader {
    /// Before the Data Descriptive Record is read, the dictionary is
    /// empty; the cursor is always sound.
    pub closed spec fn wf(&self) -> bool {
        &&& self.cursor.wf()
        &&& (self.state == ReaderState::ExpectingDescriptiveRecord ==> self.dict.entries@.len()
            == 0)
    }

    /// The whole stream the reader walks.
    pub closed spec fn stream(&self) -> Seq<u8> {
        self.cursor.stream()
    }

    /// Bytes consumed so far.
    pub closed spec fn spec_position(&self) -> int {
        self.cursor.spec_position()
    }

    /// The state the reader stands in.
    pub closed spec fn spec_state(&self) -> ReaderState {
        self.state
    }

    /// The dictionary built from the Data Descriptive Record.
    pub closed spec fn dictionary(&self) -> FieldDictionary {
        self.dict
    }

    pub fn new(data: Vec<u8>) -> (r: RecordReader)
        ensures
            r.wf(),
            r.stream() == data@,
            r.spec_position() == 0,
            r.spec_state() == ReaderState::ExpectingDescriptiveRecord,
            r.dictionary().entries@.len() == 0,
    {
        RecordReader {
            cursor: ByteCursor::new(data),
            state: ReaderState::ExpectingDescriptiveRecord,
            dict: FieldDictionary::new(),
        }
    }

    /// The state the reader stands in.
    pub fn state_now(&self) -> (st: ReaderState)
        ensures
            st == self.spec_state(),
    {
        self.state
    }

    /// Bytes consumed since the start of the stream.
    pub fn position(&self) -> (p: usize)
        ensures
            p == self.spec_position(),
    {
        self.cursor.position()
    }

    /// Reads the next record: `Ok(Some(record))` on a decoded record,
    /// `Ok(None)` at a clean end of the stream, and a failure kind on
    /// structural corruption.  A failure never advances the state machine
    /// and never touches the dictionary.
    #[verifier::loop_isolation(false)]
    #[verifier::rlimit(100)]
    #[verifier::spinoff_prover]
    pub fn read_next_record(&mut self) -> (r: Result<Option<DecodedRecord>, ParseError>)
        requires
            old(self).wf(),
        ensures
            final(self).wf(),
            final(self).stream() == old(self).stream(),
            final(self).spec_position() >= old(self).spec_position(),
            (r matches Ok(o) && o is None) <==> (old(self).spec_state() == ReaderState::Exhausted
                || old(self).spec_position() == old(self).stream().len()),
            (r matches Ok(o) && o is None) ==> final(self).spec_state() == ReaderState::Exhausted
                && final(self).spec_position() == old(self).spec_position(),
            (r matches Err(e) && e == ParseError::TruncatedRecord) <==> (old(self).spec_state()
                != ReaderState::Exhausted && old(self).spec_position() < old(self).stream().len()
                && old(self).stream().len() - old(self).spec_position() < 24),
            r is Err ==> final(self).spec_state() == old(self).spec_state()
                && final(self).dictionary() == old(self).dictionary(),
            r is Err ==> old(self).spec_state() != ReaderState::Exhausted,
            (r matches Err(e) && e == ParseError::UnknownFieldTag) ==> old(self).spec_state()
                == ReaderState::ExpectingDataRecord,
            (r matches Err(e) && e == ParseError::MalformedLeader) <==> (old(self).spec_state()
                != ReaderState::Exhausted && old(self).spec_position() + 24 <= old(
                self,
            ).stream().len() && !leader_bytes_ok(
                old(self).stream().subrange(
                    old(self).spec_position(),
                    old(self).spec_position() + 24,
                ),
            )),
            !(r matches Err(e) && e == ParseError::EmptyDirectory),
            (old(self).spec_state() != ReaderState::Exhausted && record_parses(
                old(self).stream(),
                old(self).spec_position(),
                old(self).spec_state() == ReaderState::ExpectingDescriptiveRecord,
                old(self).dictionary(),
            )) ==> (r matches Ok(o) && o is Some),
            ({
                let s = old(self).stream();
                let p = old(self).spec_position();
                let lb = s.subrange(p, p + 24);
                let ds = dec_value(s.subrange(p + 12, p + 17)) - 24;
                let region = s.subrange(p + 24, p + 24 + ds);
                let em = spec_entry_map(lb);
                let n = dir_entry_count(ds, entry_width(em));
                let fa = p + 24 + ds;
                let dict = old(self).dictionary();
                (old(self).spec_state() == ReaderState::ExpectingDataRecord && record_frame_ok(
                    s,
                    p,
                ) && exists|i: int|
                    0 <= i < n && #[trigger] undeclared_tag_at(dict, s, fa, region, em, i)) ==> (
                r matches Err(e) && e == ParseError::UnknownFieldTag)
            }),
            ({
                let s = old(self).stream();
                let p = old(self).spec_position();
                let lb = s.subrange(p, p + 24);
                let ds = dec_value(s.subrange(p + 12, p + 17)) - 24;
                let region = s.subrange(p + 24, p + 24 + ds);
                let em = spec_entry_map(lb);
                let pre = old(self).spec_state() != ReaderState::Exhausted && p + 24 <= s.len()
                    && leader_bytes_ok(lb);
                &&& ((r matches Err(e) && e == ParseError::MisalignedDirectory) <==> pre && p + 24
                    + ds <= s.len() && !dir_aligned(ds, entry_width(em)))
                &&& ((r matches Err(e) && e matches ParseError::InvalidDirectoryEntry(_)) <==> pre
                    && p + 24 + ds <= s.len() && dir_aligned(ds, entry_width(em)) && !entries_ok(
                    region,
                    em,
                ))
                &&& (pre && p + 24 + ds > s.len() ==> (r matches Err(e) && e
                    == ParseError::UnexpectedEndOfStream))
            }),
            r matches Ok(o) ==> (o matches Some(rec) ==> ({
                let s = old(self).stream();
                let p = old(self).spec_position();
                let lb = s.subrange(p, p + 24);
                let em = rec.leader.entry_map;
                let ds = rec.leader.base_address_of_field_data - 24;
                let region = s.subrange(p + 24, p + 24 + ds);
                let n = dir_entry_count(ds as int, entry_width(em));
                let fa = p + rec.leader.base_address_of_field_data;
                &&& old(self).spec_state() != ReaderState::Exhausted
                &&& p + 24 + ds <= s.len()
                &&& leader_bytes_ok(lb)
                &&& leader_matches(rec.leader, lb)
                &&& em.wf()
                &&& dir_ok(region, em)
                &&& rec.fields@.len() == n
                &&& forall|i: int|
                    0 <= i < n ==> (#[trigger] rec.fields@[i]).tag@ == tag_bytes(region, em, i)
                &&& final(self).spec_state() == ReaderState::ExpectingDataRecord
                &&& (if n == 0 {
                    final(self).spec_position() == fa
                } else {
                    final(self).spec_position() == fa + dec_value(
                        position_bytes(region, em, n - 1),
                    ) + dec_value(length_bytes(region, em, n - 1))
                })
                &&& (old(self).spec_state() == ReaderState::ExpectingDescriptiveRecord ==> {
                    &&& final(self).dictionary().entries@.len() == n
                    &&& forall|i: int|
                        0 <= i < n ==> ({
                            let fstart = fa + dec_value(position_bytes(region, em, i));
                            let flen = dec_value(length_bytes(region, em, i));
                            let fb = s.subrange(fstart, fstart + flen);
                            &&& fstart + flen <= s.len()
                            &&& ddr_field_ok(fb)
                            &&& (#[trigger] final(self).dictionary().entries@[i]).tag@
                                == tag_bytes(region, em, i)
                            &&& ddr_grammar_matches(
                                final(self).dictionary().entries@[i].grammar,
                                fb,
                            )
                            &&& rec.fields@[i].subfields@.len() == 0
                        })
                })
                &&& (old(self).spec_state() == ReaderState::ExpectingDataRecord ==> {
                    &&& final(self).dictionary() == old(self).dictionary()
                    &&& forall|i: int|
                        0 <= i < n ==> data_field_decoded(
                            old(self).dictionary(),
                            s,
                            fa,
                            region,
                            em,
                            i,
                            #[trigger] rec.fields@[i],
                        )
                })
            })),
    {
        match self.state {
            ReaderState::Exhausted => {
                return Ok(Option::None);
            },
            _ => {},
        }
        let rem = self.cursor.remaining();
        if rem == 0 {
            self.state = ReaderState::Exhausted;
            return Ok(Option::None);
        }
        if rem < 24 {
            return Err(ParseError::TruncatedRecord);
        }
        let ghost s = self.cursor.stream();
        let ghost p = self.cursor.spec_position();
        let pair = match read_header(&mut self.cursor) {
            Ok(h) => h,
            Err(e) => {
                return Err(e);
            },
        };
        let header = pair.0;
        let directory_size = pair.1;
        proof {
            assert(s.subrange(p, p + 24).subrange(12, 17) =~= s.subrange(p + 12, p + 17));
            assert(header.entry_map == spec_entry_map(s.subrange(p, p + 24)));
        }
        let dir_bytes = match self.cursor.read_exact(directory_size) {
            Ok(b) => b,
            Err(e) => {
                return Err(e);
            },
        };
        let ghost region = s.subrange(p + 24, p + 24 + directory_size);
        let entries = match decode_directory(dir_bytes.as_slice(), &header.entry_map) {
            Ok(es) => es,
            Err(e) => {
                return Err(e);
            },
        };
        let ghost em = header.entry_map;
        let ghost n = entries@.len() as int;
        let field_area_start = self.cursor.position();
        let ghost fa = p + header.base_address_of_field_data as int;
        let building: bool = match self.state {
            ReaderState::ExpectingDescriptiveRecord => true,
            _ => false,
        };
        let mut fields: Vec<DecodedField> = Vec::new();
        let mut new_dict = FieldDictionary::new();
        let en = entries.len();
        let mut i: usize = 0;
        while i < en
            invariant
                self.cursor.wf(),
                self.cursor.stream() == s,
                self.cursor.spec_position() >= fa,
                self.state == old(self).state,
                self.dict == old(self).dict,
                0 <= i <= en,
                fields@.len() == i,
                new_dict.entries@.len() == (if building {
                    i as int
                } else {
                    0
                }),
                (if i == 0 {
                    self.cursor.spec_position() == fa
                } else {
                    self.cursor.spec_position() == fa + entries@[i - 1].position
                        + entries@[i - 1].length
                }),
                forall|k: int|
                    0 <= k < i ==> (#[trigger] fields@[k]).tag@ == tag_bytes(region, em, k),
                building ==> forall|k: int|
                    0 <= k < i ==> fa + dec_value(position_bytes(region, em, k)) + dec_value(
                        #[trigger] length_bytes(region, em, k),
                    ) <= s.len(),
                building ==> forall|k: int|
                    0 <= k < i ==> ddr_field_ok(
                        #[trigger] s.subrange(
                            fa + dec_value(position_bytes(region, em, k)),
                            fa + dec_value(position_bytes(region, em, k)) + dec_value(
                                length_bytes(region, em, k),
                            ),
                        ),
                    ),
                building ==> forall|k: int|
                    0 <= k < i ==> (#[trigger] new_dict.entries@[k]).tag@ == tag_bytes(
                        region,
                        em,
                        k,
                    ),
                building ==> forall|k: int|
                    0 <= k < i ==> ddr_grammar_matches(
                        (#[trigger] new_dict.entries@[k]).grammar,
                        s.subrange(
                            fa + dec_value(position_bytes(region, em, k)),
                            fa + dec_value(position_bytes(region, em, k)) + dec_value(
                                length_bytes(region, em, k),
                            ),
                        ),
                    ),
                building ==> forall|k: int|
                    0 <= k < i ==> (#[trigger] fields@[k]).subfields@.len() == 0,
                !building ==> forall|k: int|
                    0 <= k < i ==> data_field_decoded(
                        self.dict,
                        s,
                        fa,
                        region,
                        em,
                        k,
                        #[trigger] fields@[k],
                    ),
            decreases en - i,
        {
            let entry = &entries[i];
            let ghost fstart = fa + dec_value(position_bytes(region, em, i as int));
            let ghost flen = dec_value(length_bytes(region, em, i as int));
            proof {
                assert(entry_matches(entries@[i as int], region, em, i as int));
            }
            let expected = match field_area_start.checked_add(entry.position) {
                Some(v) => v,
                None => {
                    proof {
                        assert(record_frame_ok(s, p) ==> fa + dec_value(
                            position_bytes(region, em, i as int),
                        ) + dec_value(length_bytes(region, em, i as int)) <= s.len());
                    }
                    return Err(ParseError::PositionMismatch);
                },
            };
            if self.cursor.position() != expected {
                proof {
                    if i > 0 {
                        assert(entry_matches(entries@[i - 1], region, em, i - 1));
                    }
                    assert(record_frame_ok(s, p) ==> dec_value(
                        position_bytes(region, em, i as int),
                    ) == (if i == 0 {
                        0int
                    } else {
                        dec_value(position_bytes(region, em, i - 1)) + dec_value(
                            length_bytes(region, em, i - 1),
                        )
                    }));
                }
                return Err(ParseError::PositionMismatch);
            }
            let bytes = match self.cursor.read_exact(entry.length) {
                Ok(b) => b,
                Err(e) => {
                    proof {
                        assert(record_frame_ok(s, p) ==> fa + dec_value(
                            position_bytes(region, em, i as int),
                        ) + dec_value(length_bytes(region, em, i as int)) <= s.len());
                    }
                    return Err(e);
                },
            };
            proof {
                assert(bytes@ == s.subrange(fstart, fstart + flen));
            }
            if building {
                let parsed = match parse_ddr_field(bytes.as_slice()) {
                    Ok(pr) => pr,
                    Err(e) => {
                        proof {
                            assert(!ddr_field_at_parses(s, fa, region, em, i as int));
                            assert(record_parses(s, p, building, old(self).dict)
                                ==> ddr_field_at_parses(s, fa, region, em, i as int));
                        }
                        return Err(e);
                    },
                };
                let grammar = match parse_format_controls(
                    parsed.1.array_descriptor.as_slice(),
                    parsed.1.format_controls.as_slice(),
                    parsed.0.data_type,
                ) {
                    Ok(g) => g,
                    Err(e) => {
                        proof {
                            let fb = s.subrange(fstart, fstart + flen);
                            let parts = split_on(ddr_payload(fb), UNIT_TERMINATOR);
                            assert(parsed.1.array_descriptor@ == (if parts.len() >= 2 {
                                parts[1]
                            } else {
                                Seq::<u8>::empty()
                            }));
                            assert(parsed.1.format_controls@ == (if parts.len() >= 3 {
                                parts[2]
                            } else {
                                Seq::<u8>::empty()
                            }));
                            assert(!ddr_field_parses(fb));
                            assert(!ddr_field_at_parses(s, fa, region, em, i as int));
                            assert(record_parses(s, p, building, old(self).dict)
                                ==> ddr_field_at_parses(s, fa, region, em, i as int));
                        }
                        return Err(e);
                    },
                };
                let ghost dict_before = new_dict.entries@;
                new_dict.insert(slice_to_vec(entry.tag.as_slice()), grammar);
                fields.push(
                    DecodedField { tag: slice_to_vec(entry.tag.as_slice()), subfields: Vec::new() },
                );
                proof {
                    let fb = s.subrange(fstart, fstart + flen);
                    let parts = split_on(ddr_payload(fb), UNIT_TERMINATOR);
                    assert(parsed.1.array_descriptor@ == (if parts.len() >= 2 {
                        parts[1]
                    } else {
                        Seq::<u8>::empty()
                    }));
                    assert(parsed.1.format_controls@ == (if parts.len() >= 3 {
                        parts[2]
                    } else {
                        Seq::<u8>::empty()
                    }));
                    assert(parsed.0.data_type == fb[1]);
                    assert(ddr_grammar_matches(grammar, fb));
                    assert(new_dict.entries@[i as int] == new_dict.entries@.last());
                    assert forall|k: int| 0 <= k < i implies new_dict.entries@[k]
                        == dict_before[k] by {
                        assert(new_dict.entries@.drop_last()[k] == new_dict.entries@[k]);
                    }
                    assert forall|k: int|
                        0 <= k < i + 1 implies (#[trigger] new_dict.entries@[k]).tag@
                        == tag_bytes(region, em, k) && ddr_grammar_matches(
                        new_dict.entries@[k].grammar,
                        s.subrange(
                            fa + dec_value(position_bytes(region, em, k)),
                            fa + dec_value(position_bytes(region, em, k)) + dec_value(
                                length_bytes(region, em, k),
                            ),
                        ),
                    ) by {
                        if k < i {
                            assert(new_dict.entries@[k] == dict_before[k]);
                        } else {
                            assert(new_dict.entries@[k] == new_dict.entries@.last());
                            assert(s.subrange(
                                fa + dec_value(position_bytes(region, em, k)),
                                fa + dec_value(position_bytes(region, em, k)) + dec_value(
                                    length_bytes(region, em, k),
                                ),
                            ) == fb);
                        }
                    }
                    assert(fields@[i as int].subfields@.len() == 0);
                    assert(fstart + flen <= s.len());
                    assert(ddr_field_ok(fb));
                }
            } else {
                let blen = bytes.len();
                if blen == 0 || bytes[blen - 1] != FIELD_TERMINATOR {
                    proof {
                        assert(!data_field_at_parses(self.dict, s, fa, region, em, i as int));
                        assert(record_parses(s, p, building, old(self).dict)
                            ==> data_field_at_parses(old(self).dict, s, fa, region, em, i as int));
                        assert forall|j: int| 0 <= j < i implies !undeclared_tag_at(
                            self.dict,
                            s,
                            fa,
                            region,
                            em,
                            j,
                        ) by {
                            assert(data_field_decoded(
                                self.dict,
                                s,
                                fa,
                                region,
                                em,
                                j,
                                fields@[j],
                            ));
                        }
                    }
                    return Err(ParseError::MissingFieldTerminator);
                }
                let grammar = match self.dict.grammar_for(entry.tag.as_slice()) {
                    Ok(g) => g,
                    Err(e) => {
                        proof {
                            crate::dictionary::lemma_lookup_contains(
                                self.dict.entries@,
                                tag_bytes(region, em, i as int),
                            );
                            assert(!data_field_at_parses(self.dict, s, fa, region, em, i as int));
                            assert(record_parses(s, p, building, old(self).dict)
                                ==> data_field_at_parses(
                                old(self).dict,
                                s,
                                fa,
                                region,
                                em,
                                i as int,
                            ));
                        }
                        return Err(e);
                    },
                };
                let payload = slice_subrange(bytes.as_slice(), 0, blen - 1);
                proof {
                    assert(payload@ =~= s.subrange(fstart, fstart + flen - 1));
                }
                let subfields = match decode_field_data(payload, grammar) {
                    Ok(v) => v,
                    Err(e) => {
                        proof {
                            assert(!data_field_at_parses(self.dict, s, fa, region, em, i as int));
                            assert(record_parses(s, p, building, old(self).dict)
                                ==> data_field_at_parses(
                                old(self).dict,
                                s,
                                fa,
                                region,
                                em,
                                i as int,
                            ));
                            assert forall|j: int| 0 <= j < i implies !undeclared_tag_at(
                                self.dict,
                                s,
                                fa,
                                region,
                                em,
                                j,
                            ) by {
                                assert(data_field_decoded(
                                    self.dict,
                                    s,
                                    fa,
                                    region,
                                    em,
                                    j,
                                    fields@[j],
                                ));
                            }
                            assert(!undeclared_tag_at(self.dict, s, fa, region, em, i as int));
                        }
                        return Err(e);
                    },
                };
                fields.push(
                    DecodedField { tag: slice_to_vec(entry.tag.as_slice()), subfields },
                );
            }
            i = i + 1;
        }
        proof {
            if en > 0 {
                assert(entry_matches(entries@[en - 1], region, em, en - 1));
            }
            if !building {
                assert forall|k: int| 0 <= k < n implies !undeclared_tag_at(
                    self.dict,
                    s,
                    fa,
                    region,
                    em,
                    k,
                ) by {
                    assert(data_field_decoded(self.dict, s, fa, region, em, k, fields@[k]));
                }
            }
        }
        if building {
            self.dict = new_dict;
        }
        self.state = ReaderState::ExpectingDataRecord;
        Ok(Option::Some(DecodedRecord { leader: header, fields }))
    }
}

} // verus!
