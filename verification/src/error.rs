//! The ways in which reading and writing fail.
use vstd::prelude::*;

verus! {

/// Why an operation of this library failed.
#[derive(Clone, Copy, Debug, PartialEq, Eq, Structural)]
pub enum EtchError {
    /// A bit sequence that should hold whole bytes has a length that is not a
    /// multiple of 8.
    IncompleteByte,
    /// A bit sequence that should hold whole 32-bit words has a length that is
    /// not a multiple of 32.
    IncompleteWord,
    /// A block does not lie inside the image it was to be written to.
    OutOfFrame,
    /// The header frame holds fewer than the four words that a reader needs.
    TruncatedInstructions,
    /// The header frame declares a block size of zero.
    ZeroBlockSize,
}

impl EtchError {
    /// A sentence for the user.
    pub fn message(&self) -> (text: String)
        ensures
            text@ == match *self {
                EtchError::IncompleteByte => "Invalid input: binary data has incomplete byte"@,
                EtchError::IncompleteWord => "Invalid input: binary data has incomplete u32 value"@,
                EtchError::OutOfFrame => "Invalid input: block lies outside the frame"@,
                EtchError::TruncatedInstructions => {
                    "Invalid input: instruction frame is too small"@
                },
                EtchError::ZeroBlockSize => {
                    "Invalid input: instruction frame declares block size 0"@
                },
            },
    {
        match self {
            EtchError::IncompleteByte => {
                "Invalid input: binary data has incomplete byte".to_owned()
            },
            EtchError::IncompleteWord => {
                "Invalid input: binary data has incomplete u32 value".to_owned()
            },
            EtchError::OutOfFrame => "Invalid input: block lies outside the frame".to_owned(),
            EtchError::TruncatedInstructions => {
                "Invalid input: instruction frame is too small".to_owned()
            },
            EtchError::ZeroBlockSize => {
                "Invalid input: instruction frame declares block size 0".to_owned()
            },
        }
    }
}

} // verus!
