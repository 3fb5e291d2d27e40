//! Decoder for the ISO/IEC 8211 binary interchange format.
//!
//! An ISO 8211 stream is a sequence of self-describing records.  Each record
//! opens with a fixed 24-byte leader that states the record's length and the
//! column widths of the directory that follows; the directory lists one
//! (tag, length, position) triple per field; the field area holds the fields'
//! bytes.  The first record of a file is the Data Descriptive Record, whose
//! fields declare the subfield grammar used to decode the fields of every
//! later Data Record with a matching tag.
//!
//! The crate decodes plain bytes: reading those bytes from a file or a socket
//! is a caller's concern.

pub mod cursor;
pub mod dictionary;
pub mod digits;
pub mod directory;
pub mod errors;
pub mod fields;
pub mod grammar;
pub mod leader;
pub mod reader;
