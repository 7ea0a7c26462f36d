use vstd::prelude::*;

verus! {

/// The ways a stream can fail to decode.
#[derive(Debug, Clone, Copy, PartialEq, Eq, Structural)]
pub enum DecompressionError {
    /// A header or a back-reference is cut off by the end of the input.
    UnexpectedEof,
    /// Reserved for stricter header checks; never produced.
    InvalidHeader,
    /// A back-reference points before the start of its chunk's output.
    InvalidOffset,
    /// A chunk header declares more body bytes than the input holds.
    InputTooShort,
}

impl DecompressionError {
    /// A short human-readable description of the error.
    pub fn message(&self) -> (r: &'static str) {
        match self {
            DecompressionError::UnexpectedEof => "Unexpected end of stream",
            DecompressionError::InvalidHeader => "Invalid block header",
            DecompressionError::InvalidOffset => "Lookback offset out of bounds",
            DecompressionError::InputTooShort => "Input buffer too short for expected data",
        }
    }
}

} // verus!
