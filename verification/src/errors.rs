//! The failure taxonomy of the decoder.
//!
//! Every decode step returns either its result or one of these kinds.  All
//! detected corruption is structural and non-transient, so no step retries,
//! and the byte cursor is never rewound after a failure.

use vstd::prelude::*;

verus! {

/// Which number of a directory entry failed strict decimal decoding.
#[derive(Clone, Copy, Debug, PartialEq, Eq, Structural)]
pub enum EntryIssue {
    /// The entry's length column held a non-digit byte or an empty run.
    BadLength,
    /// The entry's position column held a non-digit byte or an empty run.
    BadPosition,
}

/// A decode failure.  Each variant names the step that detected it.
#[derive(Clone, Copy, Debug, PartialEq, Eq, Structural)]
pub enum ParseError {
    /// A leader's fixed-width numeric field held a non-digit byte, an
    /// entry-map byte was neither a digit nor a blank, or the base address
    /// of field data was not greater than the 24-byte leader.
    MalformedLeader,
    /// The directory region was empty.
    EmptyDirectory,
    /// The directory's size minus its one terminator byte is not a whole
    /// multiple of the entry width.
    MisalignedDirectory,
    /// A directory entry's length or position did not decode as a strict
    /// unsigned decimal.
    InvalidDirectoryEntry(EntryIssue),
    /// The byte after the directory entries was not the field terminator.
    MissingFieldTerminator,
    /// A format-control token was not a recognized subfield type.
    UnsupportedFormatToken,
    /// The format controls were not a parenthesized token list, or a field
    /// of the Data Descriptive Record was too short to carry its control
    /// sub-header, or held too many unit-terminated components.
    MalformedFormatControl,
    /// The array descriptor's label count differs from the token count.
    FormatLabelMismatch,
    /// A Data Record referenced a tag the Data Descriptive Record never
    /// declared.
    UnknownFieldTag,
    /// The cursor did not stand at the position the directory declared for
    /// a field: structural corruption, not recoverable.
    PositionMismatch,
    /// End of stream inside a record's leader: the stream stopped between
    /// record boundaries.
    TruncatedRecord,
    /// A bounded read asked for more bytes than the stream still holds.
    UnexpectedEndOfStream,
    /// A field's bytes did not exhaust its grammar's byte accounting: a
    /// fixed-width subfield ran past the field's end, or bytes were left
    /// over after the last subfield.
    FieldLengthMismatch,
    /// A subfield's bytes did not match its declared type, such as a
    /// non-digit byte in an integer subfield.
    MalformedSubfield,
}

} // verus!
