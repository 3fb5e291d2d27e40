//! The format grammar of a Data Descriptive Record field.
//!
//! Each field of the Data Descriptive Record carries a 9-byte control
//! sub-header and then up to three unit-terminated components: the field
//! name, the array descriptor (a `!`-separated label list), and the format
//! controls.  The format controls are a parenthesized, comma-separated token
//! list; a token is an optional repeat count, a type letter, and an optional
//! parenthesized width, such as `A(20)` or `3I`.  The parsed grammar drives
//! the decoding of every later Data Record field with the same tag.

use crate::digits::dec_digits;
use crate::digits::dec_value;
use crate::digits::is_dec_digit;
use crate::digits::parse_decimal;
use crate::errors::ParseError;
use vstd::prelude::*;
use vstd::slice::slice_subrange;
use vstd::slice::slice_to_vec;

verus! {

/// The byte that separates subfields inside a field, `0x1F`.
pub const UNIT_TERMINATOR: u8 = 31;

/// The index of the first `sep` byte in `s`, or `s.len()` when none occurs.
pub open spec fn find_sep(s: Seq<u8>, sep: u8) -> int
    decreases s.len(),
{
    if s.len() == 0 {
        0
    } else if s[0] == sep {
        0
    } else {
        1 + find_sep(s.drop_first(), sep)
    }
}

pub proof fn lemma_find_sep(s: Seq<u8>, sep: u8)
    ensures
        0 <= find_sep(s, sep) <= s.len(),
        forall|j: int| 0 <= j < find_sep(s, sep) ==> s[j] != sep,
        find_sep(s, sep) < s.len() ==> s[find_sep(s, sep)] == sep,
    decreases s.len(),
{
    if s.len() > 0 && s[0] != sep {
        lemma_find_sep(s.drop_first(), sep);
        assert forall|j: int| 0 <= j < find_sep(s, sep) implies s[j] != sep by {
            if j > 0 {
                assert(s.drop_first()[j - 1] == s[j]);
            }
        }
    }
}

/// `find_sep` is the least index holding `sep`.
pub proof fn lemma_find_sep_at(s: Seq<u8>, sep: u8, k: int)
    requires
        0 <= k <= s.len(),
        forall|j: int| 0 <= j < k ==> s[j] != sep,
        k < s.len() ==> s[k] == sep,
    ensures
        find_sep(s, sep) == k,
    decreases s.len(),
{
    if s.len() > 0 && k > 0 {
        lemma_find_sep_at(s.drop_first(), sep, k - 1);
    }
}

/// The parts of `s` between `sep` bytes, in order.  Always at least one
/// part: an empty input yields one empty part.
pub open spec fn split_on(s: Seq<u8>, sep: u8) -> Seq<Seq<u8>>
    decreases s.len(),
    via split_on_decreases
{
    if find_sep(s, sep) == s.len() {
        seq![s]
    } else {
        seq![s.subrange(0, find_sep(s, sep))] + split_on(
            s.subrange(find_sep(s, sep) + 1, s.len() as int),
            sep,
        )
    }
}

#[via_fn]
proof fn split_on_decreases(s: Seq<u8>, sep: u8) {
    lemma_find_sep(s, sep);
}

/// Splits `bytes` at every `sep` byte.
pub fn split_bytes(bytes: &[u8], sep: u8) -> (r: Vec<Vec<u8>>)
    ensures
        r@.map_values(|p: Vec<u8>| p@) == split_on(bytes@, sep),
    decreases bytes@.len(),
{
    let n = bytes.len();
    let mut f: usize = 0;
    while f < n && bytes[f] != sep
        invariant
            0 <= f <= n,
            n == bytes@.len(),
            forall|j: int| 0 <= j < f ==> bytes@[j] != sep,
        decreases n - f,
    {
        f = f + 1;
    }
    proof {
        lemma_find_sep_at(bytes@, sep, f as int);
    }
    if f == n {
        let mut parts: Vec<Vec<u8>> = Vec::new();
        parts.push(slice_to_vec(bytes));
        proof {
            assert(parts@.map_values(|p: Vec<u8>| p@) =~= split_on(bytes@, sep));
        }
        parts
    } else {
        let head = slice_to_vec(slice_subrange(bytes, 0, f));
        let mut parts = split_bytes(slice_subrange(bytes, f + 1, n), sep);
        parts.insert(0, head);
        proof {
            assert(parts@.map_values(|p: Vec<u8>| p@) =~= seq![bytes@.subrange(0, f as int)]
                + split_on(bytes@.subrange(f + 1, n as int), sep));
            assert(parts@.map_values(|p: Vec<u8>| p@) =~= split_on(bytes@, sep));
        }
        parts
    }
}

/// The 9-byte control sub-header that opens every Data Descriptive Record
/// field: structure and type codes, auxiliary controls, printable stand-ins
/// for the two terminators, and a three-byte escape sequence.
#[derive(Clone, Debug)]
pub struct FieldType {
    pub data_structure: u8,
    pub data_type: u8,
    pub auxiliry_controls: Vec<u8>,
    pub printable_ft: u8,
    pub printable_ut: u8,
    pub escape_seq: Vec<u8>,
}

impl FieldType {
    pub fn data_structure(&self) -> (c: char)
        ensures
            c == self.data_structure as char,
    {
        self.data_structure as char
    }

    pub fn data_type(&self) -> (c: char)
        ensures
            c == self.data_type as char,
    {
        self.data_type as char
    }

    pub fn auxiliry_controls(&self) -> (r: Vec<u8>)
        ensures
            r@ == self.auxiliry_controls@,
    {
        slice_to_vec(self.auxiliry_controls.as_slice())
    }

    pub fn printable_ft(&self) -> (c: char)
        ensures
            c == self.printable_ft as char,
    {
        self.printable_ft as char
    }

    pub fn printable_ut(&self) -> (c: char)
        ensures
            c == self.printable_ut as char,
    {
        self.printable_ut as char
    }

    pub fn escape_seq(&self) -> (r: Vec<u8>)
        ensures
            r@ == self.escape_seq@,
    {
        slice_to_vec(self.escape_seq.as_slice())
    }
}

/// The decoded sub-header agrees with the 9 bytes `s`.
pub open spec fn field_type_matches(f: FieldType, s: Seq<u8>) -> bool {
    &&& f.data_structure == s[0]
    &&& f.data_type == s[1]
    &&& f.auxiliry_controls@ == s.subrange(2, 4)
    &&& f.printable_ft == s[4]
    &&& f.printable_ut == s[5]
    &&& f.escape_seq@ == s.subrange(6, 9)
}

/// Decodes the 9-byte field-control sub-header.  Every byte is taken as it
/// stands; the sub-header constrains nothing by itself.
pub fn decode_field_type(bytes: &[u8]) -> (f: FieldType)
    requires
        bytes@.len() == 9,
    ensures
        field_type_matches(f, bytes@),
{
    FieldType {
        data_structure: bytes[0],
        data_type: bytes[1],
        auxiliry_controls: slice_to_vec(slice_subrange(bytes, 2, 4)),
        printable_ft: bytes[4],
        printable_ut: bytes[5],
        escape_seq: slice_to_vec(slice_subrange(bytes, 6, 9)),
    }
}

/// The three unit-terminated components of a Data Descriptive Record
/// field's payload.  A missing component defaults to empty.
#[derive(Clone, Debug)]
pub struct FieldTypeData {
    pub name: Vec<u8>,
    pub array_descriptor: Vec<u8>,
    pub format_controls: Vec<u8>,
}

/// The components `f` agree with the unit-terminated parts of `payload`.
pub open spec fn ftd_matches(f: FieldTypeData, payload: Seq<u8>) -> bool {
    let parts = split_on(payload, UNIT_TERMINATOR);
    &&& f.name@ == parts[0]
    &&& f.array_descriptor@ == if parts.len() >= 2 {
        parts[1]
    } else {
        Seq::<u8>::empty()
    }
    &&& f.format_controls@ == if parts.len() >= 3 {
        parts[2]
    } else {
        Seq::<u8>::empty()
    }
}

/// Splits a field payload into its name, array descriptor and format
/// controls.  Fails exactly when more than three components occur.
pub fn parse_field_type_data(payload: &[u8]) -> (r: Result<FieldTypeData, ParseError>)
    ensures
        r is Ok <==> split_on(payload@, UNIT_TERMINATOR).len() <= 3,
        r is Err ==> (r matches Err(e) && e == ParseError::MalformedFormatControl),
        r matches Ok(f) ==> ftd_matches(f, payload@),
{
    let parts = split_bytes(payload, UNIT_TERMINATOR);
    proof {
        assert(split_on(payload@, UNIT_TERMINATOR).len() >= 1);
        assert(parts@.len() == split_on(payload@, UNIT_TERMINATOR).len());
    }
    if parts.len() > 3 {
        return Err(ParseError::MalformedFormatControl);
    }
    let name = slice_to_vec(parts[0].as_slice());
    let array_descriptor = if parts.len() >= 2 {
        slice_to_vec(parts[1].as_slice())
    } else {
        Vec::new()
    };
    let format_controls = if parts.len() >= 3 {
        slice_to_vec(parts[2].as_slice())
    } else {
        Vec::new()
    };
    Ok(FieldTypeData { name, array_descriptor, format_controls })
}

/// The type a subfield's bytes decode to.
#[derive(Clone, Copy, Debug, PartialEq, Eq, Structural)]
pub enum SubfieldKind {
    /// `A`: character data, kept as bytes.
    CharacterData,
    /// `I`: an implicit-point (integer) number in decimal ASCII.
    ImplicitInteger,
    /// `R`: a real number, kept as its ASCII bytes.
    Real,
    /// `B`: a bit string, kept as raw bytes.
    BitString,
}

/// One subfield of a field's grammar: its label, type, fixed byte width
/// (`None` means delimited by the next terminator), and repeat count.
#[derive(Clone, Debug)]
pub struct SubfieldDescriptor {
    pub name: Vec<u8>,
    pub kind: SubfieldKind,
    pub width: Option<usize>,
    pub repeat: usize,
}

/// The ordered subfield grammar of one field tag.
#[derive(Clone, Debug)]
pub struct FormatGrammar {
    pub subfields: Vec<SubfieldDescriptor>,
}

/// How many leading bytes of `t` are decimal digits.
pub open spec fn leading_digit_count(t: Seq<u8>) -> int
    decreases t.len(),
{
    if t.len() == 0 {
        0
    } else if !is_dec_digit(t[0]) {
        0
    } else {
        1 + leading_digit_count(t.drop_first())
    }
}

/// `leading_digit_count` is the least non-digit index.
pub proof fn lemma_leading_digit_count_at(t: Seq<u8>, k: int)
    requires
        0 <= k <= t.len(),
        forall|j: int| 0 <= j < k ==> is_dec_digit(#[trigger] t[j]),
        k < t.len() ==> !is_dec_digit(t[k]),
    ensures
        leading_digit_count(t) == k,
    decreases t.len(),
{
    if t.len() > 0 && k > 0 {
        assert forall|j: int| 0 <= j < k - 1 implies is_dec_digit(#[trigger] t.drop_first()[j]) by {
            assert(t.drop_first()[j] == t[j + 1]);
        }
        lemma_leading_digit_count_at(t.drop_first(), k - 1);
    }
}

/// The letters `A`, `I`, `R` and `B` name the recognized subfield types.
pub open spec fn known_type_letter(b: u8) -> bool {
    b == 65 || b == 73 || b == 82 || b == 66
}

/// The kind a type letter names.
pub open spec fn spec_token_kind(t: Seq<u8>) -> SubfieldKind {
    let b = t[leading_digit_count(t)];
    if b == 73 {
        SubfieldKind::ImplicitInteger
    } else if b == 82 {
        SubfieldKind::Real
    } else if b == 66 {
        SubfieldKind::BitString
    } else {
        SubfieldKind::CharacterData
    }
}

/// The token's repeat count: its leading digits, defaulting to one.
pub open spec fn spec_token_repeat(t: Seq<u8>) -> int {
    if leading_digit_count(t) == 0 {
        1
    } else {
        dec_value(t.subrange(0, leading_digit_count(t)))
    }
}

/// The token's width: the digits between the parentheses after its type
/// letter, or `None` when the subfield is terminator-delimited.
pub open spec fn spec_token_width(t: Seq<u8>) -> Option<int> {
    let rest = t.subrange(leading_digit_count(t) + 1, t.len() as int);
    if rest.len() == 0 {
        Option::None
    } else {
        Option::Some(dec_value(rest.subrange(1, rest.len() - 1)))
    }
}

/// The token reads `digits? letter (digits)?` with a recognized letter, and
/// its numbers fit the machine.
pub open spec fn token_ok(t: Seq<u8>) -> bool {
    let k = leading_digit_count(t);
    let rest = t.subrange(k + 1, t.len() as int);
    &&& k < t.len()
    &&& known_type_letter(t[k])
    &&& (k > 0 ==> dec_value(t.subrange(0, k)) <= usize::MAX)
    &&& (rest.len() > 0 ==> {
        &&& rest.len() >= 3
        &&& rest[0] == 40
        &&& rest.last() == 41
        &&& dec_digits(rest.subrange(1, rest.len() - 1))
        &&& dec_value(rest.subrange(1, rest.len() - 1)) <= usize::MAX
    })
}

/// The descriptor `d` carries what the token `t` and the label `name` say.
pub open spec fn descriptor_matches_token(d: SubfieldDescriptor, t: Seq<u8>, name: Seq<u8>) -> bool {
    &&& d.name@ == name
    &&& d.kind == spec_token_kind(t)
    &&& (d.width is Some <==> spec_token_width(t) is Some)
    &&& (d.width matches Some(w) ==> spec_token_width(t) == Option::Some(w as int))
    &&& d.repeat == spec_token_repeat(t)
}

/// Parses one format-control token into kind, width and repeat count.
fn parse_token(t: &[u8]) -> (r: Result<(SubfieldKind, Option<usize>, usize), ParseError>)
    ensures
        r is Ok <==> token_ok(t@),
        r is Err ==> (r matches Err(e) && e == ParseError::UnsupportedFormatToken),
        r matches Ok(d) ==> ({
            &&& d.0 == spec_token_kind(t@)
            &&& (d.1 is Some <==> spec_token_width(t@) is Some)
            &&& (d.1 matches Some(w) ==> spec_token_width(t@) == Option::Some(w as int))
            &&& d.2 == spec_token_repeat(t@)
        }),
{
    let n = t.len();
    let mut k: usize = 0;
    while k < n && t[k] >= 48 && t[k] <= 57
        invariant
            0 <= k <= n,
            n == t@.len(),
            forall|j: int| 0 <= j < k ==> is_dec_digit(#[trigger] t@[j]),
        decreases n - k,
    {
        k = k + 1;
    }
    proof {
        lemma_leading_digit_count_at(t@, k as int);
    }
    if k == n {
        return Err(ParseError::UnsupportedFormatToken);
    }
    let repeat = if k == 0 {
        1
    } else {
        match parse_decimal(slice_subrange(t, 0, k)) {
            Some(v) => v,
            None => {
                return Err(ParseError::UnsupportedFormatToken);
            },
        }
    };
    let kind = if t[k] == 65 {
        SubfieldKind::CharacterData
    } else if t[k] == 73 {
        SubfieldKind::ImplicitInteger
    } else if t[k] == 82 {
        SubfieldKind::Real
    } else if t[k] == 66 {
        SubfieldKind::BitString
    } else {
        return Err(ParseError::UnsupportedFormatToken);
    };
    let ghost rest = t@.subrange(k + 1, n as int);
    let width = if k + 1 == n {
        Option::None
    } else {
        if n - (k + 1) < 3 || t[k + 1] != 40 || t[n - 1] != 41 {
            return Err(ParseError::UnsupportedFormatToken);
        }
        proof {
            assert(rest[0] == t@[k + 1]);
            assert(rest.last() == t@[n - 1]);
            assert(rest.subrange(1, rest.len() - 1) =~= t@.subrange(k + 2, n - 1));
        }
        match parse_decimal(slice_subrange(t, k + 2, n - 1)) {
            Some(v) => Option::Some(v),
            None => {
                return Err(ParseError::UnsupportedFormatToken);
            },
        }
    };
    proof {
        if k + 1 != n {
            assert(rest.len() > 0);
        }
    }
    Ok((kind, width, repeat))
}

/// The labels of an array descriptor: its `!`-separated parts, or none at
/// all when the descriptor is empty.
pub open spec fn labels_of(ad: Seq<u8>) -> Seq<Seq<u8>> {
    if ad.len() == 0 {
        Seq::empty()
    } else {
        split_on(ad, 33)
    }
}

/// The label of subfield `i`: positional, empty when unnamed.
pub open spec fn label_at(ad: Seq<u8>, i: int) -> Seq<u8> {
    if ad.len() == 0 {
        Seq::empty()
    } else {
        labels_of(ad)[i]
    }
}

/// The kind a bare field falls back to, from the sub-header's data-type
/// code: `'1'` integer, `'5'` bit string, anything else character data.
pub open spec fn default_kind(data_type: u8) -> SubfieldKind {
    if data_type == 49 {
        SubfieldKind::ImplicitInteger
    } else if data_type == 53 {
        SubfieldKind::BitString
    } else {
        SubfieldKind::CharacterData
    }
}

/// The format controls open with `(` and close with `)`.
pub open spec fn fc_outer_ok(fc: Seq<u8>) -> bool {
    fc.len() >= 2 && fc[0] == 40 && fc.last() == 41
}

/// The comma-separated tokens between the outer parentheses.
pub open spec fn fc_tokens(fc: Seq<u8>) -> Seq<Seq<u8>> {
    split_on(fc.subrange(1, fc.len() - 1), 44)
}

/// Every token is recognized.
pub open spec fn tokens_all_ok(ts: Seq<Seq<u8>>) -> bool {
    forall|i: int| 0 <= i < ts.len() ==> token_ok(#[trigger] ts[i])
}

/// The grammar `g` carries the tokens `ts` labelled by the descriptor `ad`.
pub open spec fn grammar_matches(g: FormatGrammar, ts: Seq<Seq<u8>>, ad: Seq<u8>) -> bool {
    &&& g.subfields@.len() == ts.len()
    &&& forall|i: int|
        0 <= i < ts.len() ==> descriptor_matches_token(
            #[trigger] g.subfields@[i],
            ts[i],
            label_at(ad, i),
        )
}

/// Parses a field's format controls and array descriptor into its grammar.
///
/// Empty format controls yield one unnamed terminator-delimited subfield of
/// the sub-header's declared data type.  Otherwise the controls must be a
/// parenthesized comma-separated token list; every token must be
/// recognized; and a non-empty array descriptor must carry exactly one
/// label per token.
pub fn parse_format_controls(array_descriptor: &[u8], format_controls: &[u8], data_type: u8) -> (r:
    Result<FormatGrammar, ParseError>)
    ensures
        ({
            let ad = array_descriptor@;
            let fc = format_controls@;
            if fc.len() == 0 {
                &&& r is Ok <==> labels_of(ad).len() <= 1
                &&& r is Err ==> (r matches Err(e) && e == ParseError::FormatLabelMismatch)
                &&& r matches Ok(g) ==> {
                    &&& g.subfields@.len() == 1
                    &&& g.subfields@[0].name@ == label_at(ad, 0)
                    &&& g.subfields@[0].kind == default_kind(data_type)
                    &&& g.subfields@[0].width is None
                    &&& g.subfields@[0].repeat == 1
                }
            } else {
                let ts = fc_tokens(fc);
                let ls = labels_of(ad);
                &&& (r matches Err(e) && e == ParseError::MalformedFormatControl) <==> !fc_outer_ok(
                    fc,
                )
                &&& (r matches Err(e) && e == ParseError::UnsupportedFormatToken) <==> fc_outer_ok(
                    fc,
                ) && !tokens_all_ok(ts)
                &&& (r matches Err(e) && e == ParseError::FormatLabelMismatch) <==> fc_outer_ok(fc)
                    && tokens_all_ok(ts) && ad.len() > 0 && ls.len() != ts.len()
                &&& r is Ok <==> fc_outer_ok(fc) && tokens_all_ok(ts) && (ad.len() == 0 || ls.len()
                    == ts.len())
                &&& r matches Ok(g) ==> grammar_matches(g, ts, ad)
            }
        }),
{
    if format_controls.len() == 0 {
        let name: Vec<u8> = if array_descriptor.len() == 0 {
            Vec::new()
        } else {
            let labels = split_bytes(array_descriptor, 33);
            proof {
                assert(labels@.len() == labels_of(array_descriptor@).len());
            }
            if labels.len() > 1 {
                return Err(ParseError::FormatLabelMismatch);
            }
            proof {
                assert(labels_of(array_descriptor@).len() >= 1);
            }
            slice_to_vec(labels[0].as_slice())
        };
        let kind = if data_type == 49 {
            SubfieldKind::ImplicitInteger
        } else if data_type == 53 {
            SubfieldKind::BitString
        } else {
            SubfieldKind::CharacterData
        };
        let mut subfields: Vec<SubfieldDescriptor> = Vec::new();
        subfields.push(SubfieldDescriptor { name, kind, width: Option::None, repeat: 1 });
        return Ok(FormatGrammar { subfields });
    }
    let n = format_controls.len();
    if n < 2 || format_controls[0] != 40 || format_controls[n - 1] != 41 {
        return Err(ParseError::MalformedFormatControl);
    }
    let inner = slice_subrange(format_controls, 1, n - 1);
    let tokens = split_bytes(inner, 44);
    let ghost ts = fc_tokens(format_controls@);
    proof {
        assert(tokens@.map_values(|p: Vec<u8>| p@) == ts);
    }
    let tn = tokens.len();
    let mut parsed: Vec<(SubfieldKind, Option<usize>, usize)> = Vec::new();
    let mut i: usize = 0;
    while i < tn
        invariant
            0 <= i <= tn,
            tn == tokens@.len(),
            fc_outer_ok(format_controls@),
            ts == fc_tokens(format_controls@),
            tokens@.map_values(|p: Vec<u8>| p@) == ts,
            parsed@.len() == i,
            forall|j: int| 0 <= j < i ==> token_ok(#[trigger] ts[j]),
            forall|j: int|
                0 <= j < i ==> {
                    &&& (#[trigger] parsed@[j]).0 == spec_token_kind(ts[j])
                    &&& (parsed@[j].1 is Some <==> spec_token_width(ts[j]) is Some)
                    &&& (parsed@[j].1 matches Some(w) ==> spec_token_width(ts[j]) == Option::Some(
                        w as int,
                    ))
                    &&& parsed@[j].2 == spec_token_repeat(ts[j])
                },
        decreases tn - i,
    {
        proof {
            assert(tokens@[i as int]@ == ts[i as int]);
        }
        match parse_token(tokens[i].as_slice()) {
            Ok(d) => {
                parsed.push(d);
            },
            Err(_) => {
                proof {
                    assert(!token_ok(ts[i as int]));
                }
                return Err(ParseError::UnsupportedFormatToken);
            },
        }
        i = i + 1;
    }
    let labels: Option<Vec<Vec<u8>>> = if array_descriptor.len() == 0 {
        Option::None
    } else {
        let ls = split_bytes(array_descriptor, 33);
        proof {
            assert(ls@.len() == labels_of(array_descriptor@).len());
        }
        if ls.len() != tn {
            return Err(ParseError::FormatLabelMismatch);
        }
        Option::Some(ls)
    };
    let mut subfields: Vec<SubfieldDescriptor> = Vec::new();
    let mut j: usize = 0;
    while j < tn
        invariant
            0 <= j <= tn,
            tn == ts.len(),
            fc_outer_ok(format_controls@),
            ts == fc_tokens(format_controls@),
            parsed@.len() == tn,
            subfields@.len() == j,
            forall|k: int| 0 <= k < tn ==> token_ok(#[trigger] ts[k]),
            forall|k: int|
                0 <= k < tn ==> {
                    &&& (#[trigger] parsed@[k]).0 == spec_token_kind(ts[k])
                    &&& (parsed@[k].1 is Some <==> spec_token_width(ts[k]) is Some)
                    &&& (parsed@[k].1 matches Some(w) ==> spec_token_width(ts[k]) == Option::Some(
                        w as int,
                    ))
                    &&& parsed@[k].2 == spec_token_repeat(ts[k])
                },
            labels is Some <==> array_descriptor@.len() > 0,
            labels matches Some(ls) ==> ls@.len() == tn && ls@.map_values(|p: Vec<u8>| p@)
                == labels_of(array_descriptor@),
            forall|k: int|
                0 <= k < j ==> descriptor_matches_token(
                    #[trigger] subfields@[k],
                    ts[k],
                    label_at(array_descriptor@, k),
                ),
        decreases tn - j,
    {
        let name: Vec<u8> = match &labels {
            Option::None => Vec::new(),
            Option::Some(ls) => slice_to_vec(ls[j].as_slice()),
        };
        let d = parsed[j];
        subfields.push(SubfieldDescriptor { name, kind: d.0, width: d.1, repeat: d.2 });
        j = j + 1;
    }
    Ok(FormatGrammar { subfields })
}

} // verus!

