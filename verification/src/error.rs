//! What can be wrong with the bytes of an index.

use vstd::prelude::*;

verus! {

/// Why a byte buffer could not be read as part of an index.
#[derive(Clone, Copy, Debug, PartialEq, Eq, Structural)]
pub enum DecodeError {
    /// The buffer ends in the middle of a record.
    UnexpectedEof,
    /// A term is not valid UTF-8.
    InvalidUtf8,
    /// The two indexes do not belong together: a document of a posting
    /// list has no record in the forward index.
    Malformed,
}

impl DecodeError {
    /// A short description of the error.
    pub fn message(&self) -> (s: &'static str)
        ensures
            s@ == (match *self {
                DecodeError::UnexpectedEof => "unexpected end of data inside a record"@,
                DecodeError::InvalidUtf8 => "a term is not valid UTF-8"@,
                DecodeError::Malformed => "a document has no record in the forward index"@,
            }),
    {
        match self {
            DecodeError::UnexpectedEof => "unexpected end of data inside a record",
            DecodeError::InvalidUtf8 => "a term is not valid UTF-8",
            DecodeError::Malformed => "a document has no record in the forward index",
        }
    }
}

} // verus!
