use iso8211::cursor::ByteCursor;
use iso8211::directory::DirEntry;
use iso8211::errors::ParseError;
use iso8211::fields::SubfieldValue;
use iso8211::leader::read_header;
use iso8211::directory::read_directory;
use iso8211::reader::read_field_types;
use iso8211::reader::read_fields;
use iso8211::reader::ReaderState;
use iso8211::reader::RecordReader;

/// One record as bytes: a leader, a one-entry directory, one field.
fn record(leader_id: u8, tag: &[u8], field: &[u8]) -> Vec<u8> {
    let base = 24 + 4 + 2 + 2 + 1;
    let record_length = base + field.len();
    let mut v = Vec::new();
    v.extend_from_slice(format!("{:05}", record_length).as_bytes());
    v.push(b'3');
    v.push(leader_id);
    v.push(b' ');
    v.push(b'1');
    v.push(b' ');
    v.extend_from_slice(b"09");
    v.extend_from_slice(format!("{:05}", base).as_bytes());
    v.extend_from_slice(b"   ");
    v.extend_from_slice(b"2204");
    v.extend_from_slice(tag);
    v.extend_from_slice(format!("{:02}", field.len()).as_bytes());
    v.extend_from_slice(b"00");
    v.push(0x1e);
    v.extend_from_slice(field);
    v
}

/// The Data Descriptive Record's one field: tag 0100, labels LABEL and
/// VALUE, format controls (A,I).
fn ddr_field() -> Vec<u8> {
    let mut f = Vec::new();
    f.extend_from_slice(b"1600;&   ");
    f.push(0x1f);
    f.extend_from_slice(b"LABEL!VALUE");
    f.push(0x1f);
    f.extend_from_slice(b"(A,I)");
    f.push(0x1e);
    f
}

/// A Data Record field carrying the subfields "ABC" and 42.
fn dr_field() -> Vec<u8> {
    let mut f = Vec::new();
    f.extend_from_slice(b"ABC");
    f.push(0x1f);
    f.extend_from_slice(b"42");
    f.push(0x1e);
    f
}

fn two_record_stream() -> Vec<u8> {
    let mut s = record(b'L', b"0100", &ddr_field());
    s.extend_from_slice(&record(b'D', b"0100", &dr_field()));
    s
}

#[test]
fn two_records_then_clean_end() {
    let mut reader = RecordReader::new(two_record_stream());
    let first = reader.read_next_record().unwrap().unwrap();
    assert_eq!(first.leader.leader_identifier(), 'L');
    assert_eq!(first.fields.len(), 1);
    assert_eq!(first.fields[0].tag, b"0100".to_vec());
    let second = reader.read_next_record().unwrap().unwrap();
    assert_eq!(second.leader.leader_identifier(), 'D');
    assert_eq!(second.fields.len(), 1);
    assert_eq!(second.fields[0].subfields.len(), 2);
    assert_eq!(second.fields[0].subfields[0], SubfieldValue::Text(b"ABC".to_vec()));
    assert_eq!(second.fields[0].subfields[1], SubfieldValue::Integer(42));
    assert!(reader.read_next_record().unwrap().is_none());
    assert_eq!(reader.state_now(), ReaderState::Exhausted);
    assert!(reader.read_next_record().unwrap().is_none());
}

#[test]
fn truncation_mid_second_record_fails_after_first() {
    let stream = two_record_stream();
    let ddr_len = record(b'L', b"0100", &ddr_field()).len();
    let mut cut = stream.clone();
    cut.truncate(ddr_len + 10);
    let mut reader = RecordReader::new(cut);
    let first = reader.read_next_record().unwrap().unwrap();
    assert_eq!(first.fields[0].tag, b"0100".to_vec());
    assert_eq!(reader.read_next_record().unwrap_err(), ParseError::TruncatedRecord);
}

#[test]
fn unknown_tag_fails_and_does_not_advance() {
    let mut s = record(b'L', b"0100", &ddr_field());
    s.extend_from_slice(&record(b'D', b"0200", &dr_field()));
    let mut reader = RecordReader::new(s);
    reader.read_next_record().unwrap().unwrap();
    assert_eq!(reader.read_next_record().unwrap_err(), ParseError::UnknownFieldTag);
    assert_eq!(reader.state_now(), ReaderState::ExpectingDataRecord);
}

#[test]
fn wrong_field_position_is_position_mismatch() {
    let mut s = record(b'L', b"0100", &ddr_field());
    let mut second = record(b'D', b"0100", &dr_field());
    second[31] = b'1';
    s.extend_from_slice(&second);
    let mut reader = RecordReader::new(s);
    reader.read_next_record().unwrap().unwrap();
    assert_eq!(reader.read_next_record().unwrap_err(), ParseError::PositionMismatch);
}

#[test]
fn data_field_without_terminator_fails() {
    let mut s = record(b'L', b"0100", &ddr_field());
    let mut field = dr_field();
    let last = field.len() - 1;
    field[last] = b'x';
    s.extend_from_slice(&record(b'D', b"0100", &field));
    let mut reader = RecordReader::new(s);
    reader.read_next_record().unwrap().unwrap();
    assert_eq!(reader.read_next_record().unwrap_err(), ParseError::MissingFieldTerminator);
}

#[test]
fn empty_stream_ends_at_once() {
    let mut reader = RecordReader::new(Vec::new());
    assert!(reader.read_next_record().unwrap().is_none());
    assert_eq!(reader.state_now(), ReaderState::Exhausted);
}

#[test]
fn partial_leader_at_start_is_truncated() {
    let mut reader = RecordReader::new(b"00061".to_vec());
    assert_eq!(reader.read_next_record().unwrap_err(), ParseError::TruncatedRecord);
}

#[test]
fn cursor_reads_exactly_and_tracks_position() {
    let mut cursor = ByteCursor::new(b"abcdef".to_vec());
    assert_eq!(cursor.position(), 0);
    assert_eq!(cursor.read_exact(4).unwrap(), b"abcd".to_vec());
    assert_eq!(cursor.position(), 4);
    assert_eq!(cursor.read_exact(3).unwrap_err(), ParseError::UnexpectedEndOfStream);
    assert_eq!(cursor.position(), 4);
    assert_eq!(cursor.read_exact(2).unwrap(), b"ef".to_vec());
    assert_eq!(cursor.remaining(), 0);
}

#[test]
fn header_and_directory_read_through_cursor() {
    let stream = record(b'L', b"0100", &ddr_field());
    let mut cursor = ByteCursor::new(stream);
    let (header, directory_size) = read_header(&mut cursor).unwrap();
    assert_eq!(directory_size, 9);
    assert_eq!(header.base_address_of_field_data(), 33);
    let entries = read_directory(&mut cursor, &header, directory_size).unwrap();
    assert_eq!(entries.len(), 1);
    assert_eq!(entries[0].tag, b"0100".to_vec());
    assert_eq!(entries[0].length, 28);
    assert_eq!(entries[0].position, 0);
    assert_eq!(cursor.position(), 33);
}

#[test]
fn field_types_read_through_cursor() {
    let stream = record(b'L', b"0100", &ddr_field());
    let mut cursor = ByteCursor::new(stream);
    let (header, directory_size) = read_header(&mut cursor).unwrap();
    let entries = read_directory(&mut cursor, &header, directory_size).unwrap();
    let types = read_field_types(&mut cursor, &entries).unwrap();
    assert_eq!(types.len(), 1);
    assert_eq!(types[0].name, Vec::<u8>::new());
    assert_eq!(types[0].array_descriptor, b"LABEL!VALUE".to_vec());
    assert_eq!(types[0].format_controls, b"(A,I)".to_vec());
}

#[test]
fn field_types_position_gap_is_position_mismatch() {
    let mut cursor = ByteCursor::new(vec![0u8; 64]);
    let entries = vec![DirEntry { tag: b"0100".to_vec(), length: 28, position: 1 }];
    assert_eq!(
        read_field_types(&mut cursor, &entries).unwrap_err(),
        ParseError::PositionMismatch
    );
    assert_eq!(cursor.position(), 0);
}

#[test]
fn raw_fields_read_through_cursor() {
    let stream = record(b'D', b"0100", &dr_field());
    let mut cursor = ByteCursor::new(stream);
    let (header, directory_size) = read_header(&mut cursor).unwrap();
    let entries = read_directory(&mut cursor, &header, directory_size).unwrap();
    let raw = read_fields(&mut cursor, &entries).unwrap();
    assert_eq!(raw.len(), 1);
    assert_eq!(raw[0], dr_field());
    assert_eq!(cursor.remaining(), 0);
}

#[test]
fn truncated_directory_is_end_of_stream() {
    let stream = record(b'L', b"0100", &ddr_field());
    let mut reader = RecordReader::new(stream[..30].to_vec());
    assert_eq!(reader.read_next_record().unwrap_err(), ParseError::UnexpectedEndOfStream);
}
