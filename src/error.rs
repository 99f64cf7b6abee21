use vstd::prelude::*;

verus! {

/// Why a parse stopped. Every error ends the parse; nothing parsed before it
/// is returned.
#[derive(Debug, Clone, Copy, PartialEq, Eq, Structural)]
pub enum ParseError {
    /// The line source failed to deliver a line.
    IoError,
    /// A record with too few tab-separated fields, or an attribute without a value.
    MalformedRecord,
    /// A start or end coordinate that is not an unsigned 64-bit integer.
    NumericParseError,
    /// A column that would grow past the `u32` range of its codes and counts.
    TooManyValues,
}

impl ParseError {
    /// A short description of the error.
    pub fn message(&self) -> (r: String) {
        match self {
            ParseError::IoError => "failed to read a line".to_owned(),
            ParseError::MalformedRecord => "malformed record".to_owned(),
            ParseError::NumericParseError => "invalid start or end coordinate".to_owned(),
            ParseError::TooManyValues => "too many values in a column".to_owned(),
        }
    }
}

} // verus!
