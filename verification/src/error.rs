//! Errors of the decoder.  Every error is terminal for the decode session:
//! after a framing error the remaining stream is untrusted, and a payload
//! error spoils the one record it came from.

use vstd::prelude::*;

verus! {

/// Which checksum of a frame failed to verify.
#[derive(Debug, Clone, Copy, PartialEq, Eq, Structural)]
pub enum ChecksumSite {
    /// The checksum guarding the 8-byte length field.
    Length,
    /// The checksum guarding the data payload.
    Data,
}

/// A decoding failure, either at the framing layer or in one record's payload.
#[derive(Debug, Clone, Copy, PartialEq, Eq, Structural)]
pub enum DecodeError {
    /// The stream ended in the middle of a frame.
    Truncated,
    /// A stored checksum did not match the checksum of the bytes it guards.
    ChecksumMismatch(ChecksumSite),
    /// A data block was not a JSON array of five elements.
    MalformedRecord,
    /// A record field had the wrong kind or shape.
    MalformedField,
    /// An operation token matched none of the known operations.
    UnknownOperation,
}

} // verus!
