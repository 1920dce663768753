//! Errors reported by the parser.
use vstd::prelude::*;

verus! {

/// The I/O error type of std, carried inside `BinlogError::Io` and never looked into.
#[verifier::external_type_specification]
#[verifier::external_body]
pub struct ExIoError(std::io::Error);

/// Everything that can go wrong while decoding a log.
#[derive(Debug)]
pub enum BinlogError {
    /// An error of the byte source.
    Io(std::io::Error),
    /// A format string holds a character that names no field type.
    InvalidFormat(char),
    /// No FMT definition is known for a message type.
    UnknownType(u8),
    /// The data ended inside a message or field.
    UnexpectedEof,
    /// A field's bytes are fewer than its type needs.
    PayloadTooShort,
}

} // verus!
