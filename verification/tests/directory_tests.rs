use iso8211::cursor::ByteCursor;
use iso8211::directory::decode_directory;
use iso8211::directory::encode_directory;
use iso8211::directory::read_directory;
use iso8211::directory::DirEntry;
use iso8211::errors::EntryIssue;
use iso8211::errors::ParseError;
use iso8211::leader::EntryMap;
use iso8211::leader::RawHeader;

fn entry_map(length: usize, position: usize, tag: usize) -> EntryMap {
    EntryMap { size_of_length: length, size_of_position: position, reserved: 0, size_of_tag: tag }
}

fn header_with(entry_map: EntryMap) -> RawHeader {
    RawHeader {
        record_length: 0,
        interchange_level: b'3',
        leader_identifier: b'D',
        in_line_code_identifier: b' ',
        version_number: b'1',
        application_indicator: b' ',
        field_control_length: 9,
        base_address_of_field_data: 25,
        extended_char_set_indicator: Vec::new(),
        entry_map,
    }
}

#[test]
fn misaligned_size_rejected_before_consuming() {
    let em = entry_map(2, 2, 4);
    let mut cursor = ByteCursor::new(b"xx".to_vec());
    assert_eq!(
        read_directory(&mut cursor, &header_with(em), 10).unwrap_err(),
        ParseError::MisalignedDirectory
    );
    assert_eq!(cursor.position(), 0);
}

#[test]
fn zero_size_rejected_before_consuming() {
    let em = entry_map(2, 2, 4);
    let mut cursor = ByteCursor::new(b"xx".to_vec());
    assert_eq!(
        read_directory(&mut cursor, &header_with(em), 0).unwrap_err(),
        ParseError::EmptyDirectory
    );
    assert_eq!(cursor.position(), 0);
}

#[test]
fn single_entry_directory_decodes() {
    let em = entry_map(2, 2, 4);
    let mut bytes = Vec::new();
    bytes.extend_from_slice(b"01002800");
    bytes.push(0x1e);
    let entries = decode_directory(&bytes, &em).unwrap();
    assert_eq!(entries.len(), 1);
    assert_eq!(entries[0].tag, b"0100".to_vec());
    assert_eq!(entries[0].length, 28);
    assert_eq!(entries[0].position, 0);
}

#[test]
fn entry_count_times_width_is_size_minus_one() {
    let em = entry_map(3, 3, 4);
    let mut bytes = Vec::new();
    bytes.extend_from_slice(b"AAAA007000");
    bytes.extend_from_slice(b"BBBB123007");
    bytes.push(0x1e);
    let entries = decode_directory(&bytes, &em).unwrap();
    assert_eq!(entries.len() * 10, bytes.len() - 1);
    assert_eq!(entries[1].tag, b"BBBB".to_vec());
    assert_eq!(entries[1].length, 123);
    assert_eq!(entries[1].position, 7);
}

#[test]
fn empty_directory_is_rejected() {
    let em = entry_map(2, 2, 4);
    assert_eq!(decode_directory(&[], &em).unwrap_err(), ParseError::EmptyDirectory);
}

#[test]
fn misaligned_directory_is_rejected() {
    let em = entry_map(2, 2, 4);
    let mut bytes = Vec::new();
    bytes.extend_from_slice(b"010028001");
    bytes.push(0x1e);
    assert_eq!(decode_directory(&bytes, &em).unwrap_err(), ParseError::MisalignedDirectory);
}

#[test]
fn non_digit_length_is_invalid_entry() {
    let em = entry_map(2, 2, 4);
    let mut bytes = Vec::new();
    bytes.extend_from_slice(b"0100XX00");
    bytes.push(0x1e);
    assert_eq!(decode_directory(&bytes, &em).unwrap_err(), ParseError::InvalidDirectoryEntry(EntryIssue::BadLength));
}

#[test]
fn non_digit_position_is_invalid_entry() {
    let em = entry_map(2, 2, 4);
    let mut bytes = Vec::new();
    bytes.extend_from_slice(b"010028X0");
    bytes.push(0x1e);
    assert_eq!(decode_directory(&bytes, &em).unwrap_err(), ParseError::InvalidDirectoryEntry(EntryIssue::BadPosition));
}

#[test]
fn wrong_terminator_fails_even_with_valid_entries() {
    let em = entry_map(2, 2, 4);
    let mut bytes = Vec::new();
    bytes.extend_from_slice(b"01002800");
    bytes.push(0x1f);
    assert_eq!(decode_directory(&bytes, &em).unwrap_err(), ParseError::MissingFieldTerminator);
}

#[test]
fn terminator_only_directory_holds_no_entries() {
    let em = entry_map(2, 2, 4);
    let entries = decode_directory(&[0x1e], &em).unwrap();
    assert_eq!(entries.len(), 0);
}

#[test]
fn directory_round_trip_preserves_triples() {
    let em = entry_map(3, 3, 4);
    let entries = vec![
        DirEntry { tag: b"AAAA".to_vec(), length: 7, position: 0 },
        DirEntry { tag: b"BBBB".to_vec(), length: 123, position: 7 },
        DirEntry { tag: b"CCCC".to_vec(), length: 999, position: 130 },
    ];
    let bytes = encode_directory(&entries, &em);
    assert_eq!(bytes.len(), 3 * 10 + 1);
    assert_eq!(*bytes.last().unwrap(), 0x1e);
    let decoded = decode_directory(&bytes, &em).unwrap();
    assert_eq!(decoded.len(), entries.len());
    for i in 0..entries.len() {
        assert_eq!(decoded[i].tag, entries[i].tag);
        assert_eq!(decoded[i].length, entries[i].length);
        assert_eq!(decoded[i].position, entries[i].position);
    }
}

#[test]
fn encode_zero_pads_columns() {
    let em = entry_map(3, 3, 2);
    let entries = vec![DirEntry { tag: b"ZZ".to_vec(), length: 7, position: 0 }];
    let bytes = encode_directory(&entries, &em);
    assert_eq!(&bytes, &[b'Z', b'Z', b'0', b'0', b'7', b'0', b'0', b'0', 0x1e]);
}
