use iso8211::digits::parse_decimal;
use iso8211::errors::ParseError;
use iso8211::fields::decode_field_data;
use iso8211::fields::SubfieldValue;
use iso8211::grammar::parse_field_type_data;
use iso8211::grammar::parse_format_controls;
use iso8211::grammar::split_bytes;
use iso8211::grammar::SubfieldKind;

#[test]
fn strict_decimal_accepts_digit_runs() {
    assert_eq!(parse_decimal(b"00042"), Some(42));
    assert_eq!(parse_decimal(b"0"), Some(0));
    assert_eq!(parse_decimal(b"99999"), Some(99999));
}

#[test]
fn strict_decimal_rejects_empty_blank_and_huge() {
    assert_eq!(parse_decimal(b""), None);
    assert_eq!(parse_decimal(b" 42"), None);
    assert_eq!(parse_decimal(b"42 "), None);
    assert_eq!(parse_decimal(b"4x2"), None);
    assert_eq!(parse_decimal(b"99999999999999999999999999"), None);
}

#[test]
fn split_separates_on_byte() {
    let parts = split_bytes(b"LABEL!VALUE", b'!');
    assert_eq!(parts.len(), 2);
    assert_eq!(parts[0], b"LABEL".to_vec());
    assert_eq!(parts[1], b"VALUE".to_vec());
    let whole = split_bytes(b"LABEL", b'!');
    assert_eq!(whole.len(), 1);
    let edges = split_bytes(b"!A!", b'!');
    assert_eq!(edges.len(), 3);
    assert_eq!(edges[0], Vec::<u8>::new());
    assert_eq!(edges[2], Vec::<u8>::new());
}

#[test]
fn payload_splits_into_three_components() {
    let mut payload = Vec::new();
    payload.extend_from_slice(b"NAME");
    payload.push(0x1f);
    payload.extend_from_slice(b"A!B");
    payload.push(0x1f);
    payload.extend_from_slice(b"(A,I)");
    let f = parse_field_type_data(&payload).unwrap();
    assert_eq!(f.name, b"NAME".to_vec());
    assert_eq!(f.array_descriptor, b"A!B".to_vec());
    assert_eq!(f.format_controls, b"(A,I)".to_vec());
}

#[test]
fn payload_with_four_components_is_malformed() {
    let payload = [b'a', 0x1f, b'b', 0x1f, b'c', 0x1f, b'd'];
    assert_eq!(parse_field_type_data(&payload).unwrap_err(), ParseError::MalformedFormatControl);
}

#[test]
fn labelled_text_and_integer_grammar() {
    let g = parse_format_controls(b"LABEL!VALUE", b"(A,I)", b'6').unwrap();
    assert_eq!(g.subfields.len(), 2);
    assert_eq!(g.subfields[0].name, b"LABEL".to_vec());
    assert_eq!(g.subfields[0].kind, SubfieldKind::CharacterData);
    assert_eq!(g.subfields[0].width, None);
    assert_eq!(g.subfields[0].repeat, 1);
    assert_eq!(g.subfields[1].name, b"VALUE".to_vec());
    assert_eq!(g.subfields[1].kind, SubfieldKind::ImplicitInteger);
}

#[test]
fn width_and_repeat_prefix_parse() {
    let g = parse_format_controls(b"", b"(A(20),3I(4),R,B(8))", b'6').unwrap();
    assert_eq!(g.subfields.len(), 4);
    assert_eq!(g.subfields[0].width, Some(20));
    assert_eq!(g.subfields[1].repeat, 3);
    assert_eq!(g.subfields[1].width, Some(4));
    assert_eq!(g.subfields[2].kind, SubfieldKind::Real);
    assert_eq!(g.subfields[3].kind, SubfieldKind::BitString);
}

#[test]
fn unrecognized_token_is_unsupported() {
    assert_eq!(
        parse_format_controls(b"", b"(Z)", b'6').unwrap_err(), ParseError::UnsupportedFormatToken);
}

#[test]
fn missing_parentheses_are_malformed() {
    assert_eq!(parse_format_controls(b"", b"A,I", b'6').unwrap_err(), ParseError::MalformedFormatControl);
}

#[test]
fn label_count_mismatch_is_rejected() {
    assert_eq!(parse_format_controls(b"ONLY", b"(A,I)", b'6').unwrap_err(), ParseError::FormatLabelMismatch);
}

#[test]
fn empty_format_controls_default_to_declared_type() {
    let g = parse_format_controls(b"", b"", b'1').unwrap();
    assert_eq!(g.subfields.len(), 1);
    assert_eq!(g.subfields[0].kind, SubfieldKind::ImplicitInteger);
    assert_eq!(g.subfields[0].width, None);
    let t = parse_format_controls(b"NAME", b"", b'0').unwrap();
    assert_eq!(t.subfields[0].kind, SubfieldKind::CharacterData);
    assert_eq!(t.subfields[0].name, b"NAME".to_vec());
}

#[test]
fn field_payload_decodes_to_text_and_integer() {
    let g = parse_format_controls(b"LABEL!VALUE", b"(A,I)", b'6').unwrap();
    let mut payload = Vec::new();
    payload.extend_from_slice(b"ABC");
    payload.push(0x1f);
    payload.extend_from_slice(b"42");
    let values = decode_field_data(&payload, &g).unwrap();
    assert_eq!(values.len(), 2);
    assert_eq!(values[0], SubfieldValue::Text(b"ABC".to_vec()));
    assert_eq!(values[1], SubfieldValue::Integer(42));
}

#[test]
fn fixed_width_subfields_take_exact_bytes() {
    let g = parse_format_controls(b"", b"(A(3),I(4))", b'6').unwrap();
    let values = decode_field_data(b"XYZ0042", &g).unwrap();
    assert_eq!(values[0], SubfieldValue::Text(b"XYZ".to_vec()));
    assert_eq!(values[1], SubfieldValue::Integer(42));
}

#[test]
fn negative_integer_subfield_decodes() {
    let g = parse_format_controls(b"", b"(I)", b'6').unwrap();
    let values = decode_field_data(b"-17", &g).unwrap();
    assert_eq!(values[0], SubfieldValue::Integer(-17));
}

#[test]
fn short_fixed_width_payload_is_length_mismatch() {
    let g = parse_format_controls(b"", b"(A(5))", b'6').unwrap();
    assert_eq!(decode_field_data(b"AB", &g).unwrap_err(), ParseError::FieldLengthMismatch);
}

#[test]
fn leftover_payload_is_length_mismatch() {
    let g = parse_format_controls(b"", b"(A(2))", b'6').unwrap();
    assert_eq!(decode_field_data(b"ABCD", &g).unwrap_err(), ParseError::FieldLengthMismatch);
}

#[test]
fn non_digit_integer_subfield_is_malformed() {
    let g = parse_format_controls(b"", b"(I)", b'6').unwrap();
    assert_eq!(decode_field_data(b"4x", &g).unwrap_err(), ParseError::MalformedSubfield);
}

#[test]
fn repeat_count_expands_subfields() {
    let g = parse_format_controls(b"", b"(3I(2))", b'6').unwrap();
    let values = decode_field_data(b"010203", &g).unwrap();
    assert_eq!(values.len(), 3);
    assert_eq!(values[0], SubfieldValue::Integer(1));
    assert_eq!(values[1], SubfieldValue::Integer(2));
    assert_eq!(values[2], SubfieldValue::Integer(3));
}
