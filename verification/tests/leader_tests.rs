use iso8211::errors::ParseError;
use iso8211::leader::decode_leader;

/// A valid 24-byte leader: record length 61, base address 33, entry map
/// widths 2 (length), 2 (position), 0 (reserved), 4 (tag).
fn sample_leader() -> Vec<u8> {
    let mut v = Vec::new();
    v.extend_from_slice(b"00061");
    v.push(b'3');
    v.push(b'L');
    v.push(b' ');
    v.push(b'1');
    v.push(b' ');
    v.extend_from_slice(b"09");
    v.extend_from_slice(b"00033");
    v.extend_from_slice(b"   ");
    v.extend_from_slice(b"2204");
    v
}

#[test]
fn valid_leader_decodes_all_fields() {
    let bytes = sample_leader();
    let h = decode_leader(&bytes).unwrap();
    assert_eq!(h.record_length(), 61);
    assert_eq!(h.interchange_level(), '3');
    assert_eq!(h.leader_identifier(), 'L');
    assert_eq!(h.in_line_code_identifier(), ' ');
    assert_eq!(h.version_number(), '1');
    assert_eq!(h.field_control_length(), 9);
    assert_eq!(h.base_address_of_field_data(), 33);
    assert_eq!(h.entry_map.size_of_length(), 2);
    assert_eq!(h.entry_map.size_of_position(), 2);
    assert_eq!(h.entry_map.size_of_tag(), 4);
}

#[test]
fn valid_leader_base_address_exceeds_leader_and_widths_are_digits() {
    let bytes = sample_leader();
    let h = decode_leader(&bytes).unwrap();
    assert!(h.base_address_of_field_data() > 24);
    assert!(h.entry_map.size_of_length() <= 9);
    assert!(h.entry_map.size_of_position() <= 9);
    assert!(h.entry_map.size_of_tag() <= 9);
}

#[test]
fn blank_entry_map_byte_means_zero() {
    let mut bytes = sample_leader();
    bytes[22] = b' ';
    let h = decode_leader(&bytes).unwrap();
    assert_eq!(h.entry_map.reserved, 0);
}

#[test]
fn non_digit_non_blank_entry_map_byte_is_malformed() {
    let mut bytes = sample_leader();
    bytes[20] = b'X';
    assert_eq!(decode_leader(&bytes).unwrap_err(), ParseError::MalformedLeader);
}

#[test]
fn non_digit_record_length_is_malformed() {
    let mut bytes = sample_leader();
    bytes[2] = b'A';
    assert_eq!(decode_leader(&bytes).unwrap_err(), ParseError::MalformedLeader);
}

#[test]
fn space_padded_base_address_is_malformed() {
    let mut bytes = sample_leader();
    bytes[12] = b' ';
    assert_eq!(decode_leader(&bytes).unwrap_err(), ParseError::MalformedLeader);
}

#[test]
fn base_address_of_24_is_malformed() {
    let mut bytes = sample_leader();
    bytes[12..17].copy_from_slice(b"00024");
    assert_eq!(decode_leader(&bytes).unwrap_err(), ParseError::MalformedLeader);
}

#[test]
fn base_address_of_25_leaves_one_directory_byte() {
    let mut bytes = sample_leader();
    bytes[12..17].copy_from_slice(b"00025");
    let h = decode_leader(&bytes).unwrap();
    assert_eq!(h.base_address_of_field_data(), 25);
}
