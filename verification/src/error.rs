//! Failure conditions of a run.  A malformed record anywhere in the input is
//! a hard error that aborts the whole run; it carries the byte offset and the
//! raw bytes of the offending text for diagnosis.

use vstd::prelude::*;

verus! {

/// What exactly was wrong with a record.
#[derive(Clone, Copy, Debug, PartialEq, Eq, Structural)]
pub enum MalformedKind {
    /// No `;` between the start of the record and its terminator.
    MissingDelimiter,
    /// The chunk ended before the record's terminator.
    MissingTerminator,
    /// The value text does not match `-?\d+\.\d`, or its scaled value does
    /// not fit the machine representation.
    BadNumber,
}

/// A record that could not be parsed.  `offset` is an absolute byte offset
/// into the input: the start of the record for a missing delimiter or
/// terminator, the start of the value text for an unparsable number.
#[derive(Debug, PartialEq, Eq)]
pub struct MalformedRecord {
    pub kind: MalformedKind,
    pub offset: usize,
    pub bytes: Vec<u8>,
}

/// The specification-level image of a `MalformedRecord`.
pub ghost struct RecordFailure {
    pub kind: MalformedKind,
    pub offset: int,
    pub bytes: Seq<u8>,
}

impl MalformedRecord {
    /// The failure this error reports.
    pub open spec fn spec_failure(self) -> RecordFailure {
        RecordFailure { kind: self.kind, offset: self.offset as int, bytes: self.bytes@ }
    }
}

} // verus!
