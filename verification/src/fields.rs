//! Decoding one field's bytes into typed subfield values.
//!
//! A field's payload (its bytes short of the trailing field terminator) is
//! consumed left to right by its grammar: a fixed-width subfield takes
//! exactly its width in bytes, a variable-width subfield runs to the next
//! unit terminator or to the payload's end, and each descriptor is applied
//! as many times as its repeat count says.  The payload must be exhausted
//! exactly; integers must be strict decimals with an optional leading
//! minus.

use crate::digits::dec_digits;
use crate::digits::dec_value;
use crate::digits::parse_decimal;
use crate::errors::ParseError;
use crate::grammar::find_sep;
use crate::grammar::lemma_find_sep_at;
use crate::grammar::FormatGrammar;
use crate::grammar::SubfieldDescriptor;
use crate::grammar::SubfieldKind;
use crate::grammar::UNIT_TERMINATOR;
use vstd::prelude::*;
use vstd::slice::slice_subrange;
use vstd::slice::slice_to_vec;

verus! {

/// One decoded subfield value.
#[derive(Clone, Debug, PartialEq, Eq)]
pub enum SubfieldValue {
    /// Character data, as its bytes.
    Text(Vec<u8>),
    /// An implicit-point integer.
    Integer(i64),
    /// A real number, kept as its ASCII bytes.
    Real(Vec<u8>),
    /// A bit string, as raw bytes.
    Bits(Vec<u8>),
}

/// The mathematical shape of a decoded subfield.
pub enum SubfieldModel {
    Text(Seq<u8>),
    Integer(int),
    Real(Seq<u8>),
    Bits(Seq<u8>),
}

impl View for SubfieldValue {
    type V = SubfieldModel;

    open spec fn view(&self) -> SubfieldModel {
        match self {
            SubfieldValue::Text(v) => SubfieldModel::Text(v@),
            SubfieldValue::Integer(v) => SubfieldModel::Integer(*v as int),
            SubfieldValue::Real(v) => SubfieldModel::Real(v@),
            SubfieldValue::Bits(v) => SubfieldModel::Bits(v@),
        }
    }
}

/// One application of a descriptor: its kind and width, repeats expanded.
#[derive(Clone, Copy, Debug)]
pub struct SubfieldUnit {
    pub kind: SubfieldKind,
    pub width: Option<usize>,
}

/// `count` copies of one unit.
pub open spec fn rep_units(kind: SubfieldKind, width: Option<usize>, count: int) -> Seq<
    SubfieldUnit,
>
    decreases count,
{
    if count <= 0 {
        Seq::empty()
    } else {
        rep_units(kind, width, count - 1).push(SubfieldUnit { kind, width })
    }
}

/// The descriptors of a grammar, each expanded to its repeat count.
pub open spec fn units_of(descs: Seq<SubfieldDescriptor>) -> Seq<SubfieldUnit>
    decreases descs.len(),
{
    if descs.len() == 0 {
        Seq::empty()
    } else {
        units_of(descs.drop_last()) + rep_units(
            descs.last().kind,
            descs.last().width,
            descs.last().repeat as int,
        )
    }
}

/// The bytes read as an integer subfield: an optional minus, then strict
/// digits, the value fitting both the model and the machine.
pub open spec fn int_token_ok(raw: Seq<u8>) -> bool {
    if raw.len() > 0 && raw[0] == 45 {
        let digits = raw.subrange(1, raw.len() as int);
        dec_digits(digits) && dec_value(digits) <= i64::MAX && dec_value(digits) <= usize::MAX
    } else {
        dec_digits(raw) && dec_value(raw) <= i64::MAX && dec_value(raw) <= usize::MAX
    }
}

/// The signed value of an integer subfield's bytes.
pub open spec fn int_token_value(raw: Seq<u8>) -> int {
    if raw.len() > 0 && raw[0] == 45 {
        -dec_value(raw.subrange(1, raw.len() as int))
    } else {
        dec_value(raw)
    }
}

/// The value a subfield's raw bytes carry under `kind`.
pub open spec fn unit_value(kind: SubfieldKind, raw: Seq<u8>) -> SubfieldModel {
    match kind {
        SubfieldKind::CharacterData => SubfieldModel::Text(raw),
        SubfieldKind::ImplicitInteger => SubfieldModel::Integer(int_token_value(raw)),
        SubfieldKind::Real => SubfieldModel::Real(raw),
        SubfieldKind::BitString => SubfieldModel::Bits(raw),
    }
}

/// Prefixes already-decoded values onto a pending decode result.
pub open spec fn prepend_values(
    pre: Seq<SubfieldModel>,
    r: Result<Seq<SubfieldModel>, ParseError>,
) -> Result<Seq<SubfieldModel>, ParseError> {
    match r {
        Result::Ok(vs) => Result::Ok(pre + vs),
        Result::Err(e) => Result::Err(e),
    }
}

/// What decoding `payload` under the expanded `units` yields: the typed
/// values in order, or the first failure.
pub open spec fn spec_decode_units(payload: Seq<u8>, units: Seq<SubfieldUnit>) -> Result<
    Seq<SubfieldModel>,
    ParseError,
>
    decreases units.len(),
{
    if units.len() == 0 {
        if payload.len() == 0 {
            Result::Ok(Seq::empty())
        } else {
            Result::Err(ParseError::FieldLengthMismatch)
        }
    } else {
        let u = units[0];
        match u.width {
            Option::Some(w) => {
                if payload.len() < w {
                    Result::Err(ParseError::FieldLengthMismatch)
                } else {
                    let raw = payload.subrange(0, w as int);
                    let rest = payload.subrange(w as int, payload.len() as int);
                    if u.kind == SubfieldKind::ImplicitInteger && !int_token_ok(raw) {
                        Result::Err(ParseError::MalformedSubfield)
                    } else {
                        prepend_values(
                            seq![unit_value(u.kind, raw)],
                            spec_decode_units(rest, units.drop_first()),
                        )
                    }
                }
            },
            Option::None => {
                let f = find_sep(payload, UNIT_TERMINATOR);
                let raw = payload.subrange(0, f);
                let rest = if f == payload.len() {
                    Seq::<u8>::empty()
                } else {
                    payload.subrange(f + 1, payload.len() as int)
                };
                if u.kind == SubfieldKind::ImplicitInteger && !int_token_ok(raw) {
                    Result::Err(ParseError::MalformedSubfield)
                } else {
                    prepend_values(
                        seq![unit_value(u.kind, raw)],
                        spec_decode_units(rest, units.drop_first()),
                    )
                }
            },
        }
    }
}

/// Decodes an integer subfield's bytes.
fn parse_int_subfield(raw: &[u8]) -> (r: Result<i64, ParseError>)
    ensures
        r is Ok <==> int_token_ok(raw@),
        r matches Ok(v) ==> v == int_token_value(raw@),
        r is Err ==> (r matches Err(e) && e == ParseError::MalformedSubfield),
{
    if raw.len() > 0 && raw[0] == 45 {
        match parse_decimal(slice_subrange(raw, 1, raw.len())) {
            Some(v) => {
                if v as u64 <= i64::MAX as u64 {
                    Ok(-(v as i64))
                } else {
                    Err(ParseError::MalformedSubfield)
                }
            },
            None => Err(ParseError::MalformedSubfield),
        }
    } else {
        match parse_decimal(raw) {
            Some(v) => {
                if v as u64 <= i64::MAX as u64 {
                    Ok(v as i64)
                } else {
                    Err(ParseError::MalformedSubfield)
                }
            },
            None => Err(ParseError::MalformedSubfield),
        }
    }
}

/// Decodes one field's payload (terminator already stripped) by its
/// grammar, yielding the subfield values in order.
pub fn decode_field_data(payload: &[u8], grammar: &FormatGrammar) -> (r: Result<
    Vec<SubfieldValue>,
    ParseError,
>)
    ensures
        ({
            let spec_r = spec_decode_units(payload@, units_of(grammar.subfields@));
            &&& r is Ok <==> spec_r is Ok
            &&& r matches Ok(vs) ==> spec_r == Result::<Seq<SubfieldModel>, ParseError>::Ok(
                vs@.map_values(|v: SubfieldValue| v@),
            )
            &&& r matches Err(e) ==> spec_r == Result::<Seq<SubfieldModel>, ParseError>::Err(e)
                && (e == ParseError::FieldLengthMismatch || e == ParseError::MalformedSubfield)
        }),
{
    let ghost all_units = units_of(grammar.subfields@);
    let mut units: Vec<SubfieldUnit> = Vec::new();
    let dn = grammar.subfields.len();
    let mut i: usize = 0;
    while i < dn
        invariant
            0 <= i <= dn,
            dn == grammar.subfields@.len(),
            units@ == units_of(grammar.subfields@.subrange(0, i as int)),
        decreases dn - i,
    {
        let d = &grammar.subfields[i];
        let reps = d.repeat;
        let mut c: usize = 0;
        while c < reps
            invariant
                0 <= c <= reps,
                0 <= i < dn,
                dn == grammar.subfields@.len(),
                reps == grammar.subfields@[i as int].repeat,
                units@ == units_of(grammar.subfields@.subrange(0, i as int)) + rep_units(
                    grammar.subfields@[i as int].kind,
                    grammar.subfields@[i as int].width,
                    c as int,
                ),
            decreases reps - c,
        {
            units.push(SubfieldUnit { kind: grammar.subfields[i].kind, width: grammar.subfields[i].width });
            c = c + 1;
        }
        proof {
            let descs = grammar.subfields@;
            assert(descs.subrange(0, i + 1).drop_last() =~= descs.subrange(0, i as int));
            assert(descs.subrange(0, i + 1).last() == descs[i as int]);
            assert(units@ =~= units_of(descs.subrange(0, i + 1)));
        }
        i = i + 1;
    }
    proof {
        assert(grammar.subfields@.subrange(0, dn as int) =~= grammar.subfields@);
    }
    let un = units.len();
    let n = payload.len();
    let mut out: Vec<SubfieldValue> = Vec::new();
    let mut pos: usize = 0;
    let mut j: usize = 0;
    proof {
        assert(payload@.subrange(0, n as int) =~= payload@);
        assert(units@.skip(0) =~= units@);
        assert(out@.map_values(|v: SubfieldValue| v@) =~= Seq::<SubfieldModel>::empty());
        match spec_decode_units(payload@, all_units) {
            Result::Ok(vs) => {
                assert(Seq::<SubfieldModel>::empty() + vs =~= vs);
            },
            Result::Err(_) => {},
        }
    }
    while j < un
        invariant
            0 <= j <= un,
            0 <= pos <= n,
            n == payload@.len(),
            un == units@.len(),
            units@ == all_units,
            all_units == units_of(grammar.subfields@),
            spec_decode_units(payload@, all_units) == prepend_values(
                out@.map_values(|v: SubfieldValue| v@),
                spec_decode_units(payload@.subrange(pos as int, n as int), units@.skip(j as int)),
            ),
        decreases un - j,
    {
        let ghost rem_payload = payload@.subrange(pos as int, n as int);
        let ghost rem_units = units@.skip(j as int);
        proof {
            assert(rem_units[0] == units@[j as int]);
            assert(rem_units.drop_first() =~= units@.skip(j + 1));
        }
        let u = units[j];
        let raw_pair: (usize, usize) = match u.width {
            Option::Some(w) => {
                if n - pos < w {
                    proof {
                        assert(spec_decode_units(rem_payload, rem_units) == Result::<
                            Seq<SubfieldModel>,
                            ParseError,
                        >::Err(ParseError::FieldLengthMismatch));
                    }
                    return Err(ParseError::FieldLengthMismatch);
                }
                (pos + w, pos + w)
            },
            Option::None => {
                let mut f = pos;
                while f < n && payload[f] != UNIT_TERMINATOR
                    invariant
                        pos <= f <= n,
                        n == payload@.len(),
                        forall|q: int| pos <= q < f ==> payload@[q] != UNIT_TERMINATOR,
                    decreases n - f,
                {
                    f = f + 1;
                }
                proof {
                    assert forall|q: int|
                        0 <= q < f - pos implies rem_payload[q] != UNIT_TERMINATOR by {
                        assert(rem_payload[q] == payload@[pos + q]);
                    }
                    lemma_find_sep_at(rem_payload, UNIT_TERMINATOR, f - pos);
                }
                if f == n {
                    (f, f)
                } else {
                    (f, f + 1)
                }
            },
        };
        let raw_end = raw_pair.0;
        let next_pos = raw_pair.1;
        let ghost raw = payload@.subrange(pos as int, raw_end as int);
        proof {
            match u.width {
                Option::Some(w) => {
                    assert(rem_payload.subrange(0, w as int) =~= raw);
                    assert(payload@.subrange(next_pos as int, n as int) =~= rem_payload.subrange(
                        w as int,
                        rem_payload.len() as int,
                    ));
                },
                Option::None => {
                    let fspec = find_sep(rem_payload, UNIT_TERMINATOR);
                    assert(fspec == raw_end - pos);
                    assert(rem_payload.subrange(0, fspec) =~= raw);
                    if raw_end == n {
                        assert(fspec == rem_payload.len());
                        assert(payload@.subrange(next_pos as int, n as int) =~= Seq::<u8>::empty());
                    } else {
                        assert(payload@.subrange(next_pos as int, n as int)
                            =~= rem_payload.subrange(fspec + 1, rem_payload.len() as int));
                    }
                },
            }
        }
        let value = match u.kind {
            SubfieldKind::CharacterData => SubfieldValue::Text(
                slice_to_vec(slice_subrange(payload, pos, raw_end)),
            ),
            SubfieldKind::ImplicitInteger => {
                match parse_int_subfield(slice_subrange(payload, pos, raw_end)) {
                    Ok(v) => SubfieldValue::Integer(v),
                    Err(e) => {
                        proof {
                            assert(spec_decode_units(rem_payload, rem_units) == Result::<
                                Seq<SubfieldModel>,
                                ParseError,
                            >::Err(ParseError::MalformedSubfield));
                        }
                        return Err(ParseError::MalformedSubfield);
                    },
                }
            },
            SubfieldKind::Real => SubfieldValue::Real(
                slice_to_vec(slice_subrange(payload, pos, raw_end)),
            ),
            SubfieldKind::BitString => SubfieldValue::Bits(
                slice_to_vec(slice_subrange(payload, pos, raw_end)),
            ),
        };
        proof {
            assert(value@ == unit_value(u.kind, raw));
            assert(out@.push(value).map_values(|v: SubfieldValue| v@) =~= out@.map_values(
                |v: SubfieldValue| v@,
            ).push(value@));
            let tail_r = spec_decode_units(
                payload@.subrange(next_pos as int, n as int),
                units@.skip(j + 1),
            );
            assert(spec_decode_units(rem_payload, rem_units) == prepend_values(
                seq![value@],
                tail_r,
            ));
            match tail_r {
                Result::Ok(vs) => {
                    assert(out@.map_values(|v: SubfieldValue| v@) + (seq![value@] + vs)
                        =~= out@.map_values(|v: SubfieldValue| v@).push(value@) + vs);
                },
                Result::Err(_) => {},
            }
        }
        out.push(value);
        pos = next_pos;
        j = j + 1;
    }
    if pos != n {
        return Err(ParseError::FieldLengthMismatch);
    }
    proof {
        assert(payload@.subrange(pos as int, n as int) =~= Seq::<u8>::empty());
        assert(units@.skip(un as int) =~= Seq::<SubfieldUnit>::empty());
    }
    Ok(out)
}

} // verus!
