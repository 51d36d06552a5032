//! The ways in which bytes from the feed fail to decode.
use vstd::prelude::*;

verus! {

/// Why a run of bytes could not be turned into a record.
#[derive(Debug, PartialEq, Eq, Clone, Copy, Structural)]
pub enum DecodeError {
    /// The bytes end before the length they announce, or announce a length
    /// too short for what they must hold.
    MalformedFrame,
    /// The six symbol bytes are not valid UTF-8 text.
    InvalidSymbolEncoding,
}

impl DecodeError {
    /// A short description, for log lines.
    pub fn describe(&self) -> (text: &'static str)
        ensures
            text@ == match *self {
                DecodeError::MalformedFrame => "malformed frame"@,
                DecodeError::InvalidSymbolEncoding => "invalid symbol encoding"@,
            },
    {
        match self {
            DecodeError::MalformedFrame => "malformed frame",
            DecodeError::InvalidSymbolEncoding => "invalid symbol encoding",
        }
    }
}

} // verus!
