//! Errors of bencode encoding and decoding.

use vstd::prelude::*;
use super::grammar::DecodeError;

verus! {

/// Errors specific to bencoding.
#[derive(Debug)]
pub enum Error {
    /// Attempted to decode or encode a value of an invalid type.
    InvalidType(String),
    /// A token that is valid but not the one expected.
    InvalidToken { expected: String, found: String },
    /// Map entries given out of order.
    MapSerializationOrder(String),
    /// Any other error, such as a number that does not parse.
    Custom(String),
    /// Expected end of input stream.
    EOF,
}

/// Whether an error is the one that the grammar names.
pub open spec fn error_is(e: Error, d: DecodeError) -> bool {
    match d {
        DecodeError::Eof => e is EOF,
        DecodeError::InvalidToken => e is InvalidToken,
        DecodeError::NotNumber => e is Custom,
        DecodeError::KeyNotBytes => e is InvalidType,
    }
}

} // verus!
