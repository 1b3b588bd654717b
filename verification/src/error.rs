//! The ways in which decoding a page fails.

use vstd::prelude::*;

verus! {

/// Why a page could not be decoded.
#[derive(Clone, Copy, Debug, PartialEq, Eq, Structural)]
pub enum DecodeError {
    /// The page's bytes are not a whole number of elements.
    MalformedPage,
    /// The page's encoding, or its encoding without a dictionary, is not handled.
    NotImplemented,
    /// The encoded data refers to a dictionary entry that does not exist, or
    /// gives the width of its indices as more than 32 bits or not at all.
    OutOfSpec,
    /// The decoded buffers contradict one another.
    Internal,
}

impl DecodeError {
    /// A sentence that describes the error.
    pub fn message(&self) -> (text: String)
        ensures
            text@ == match *self {
                DecodeError::MalformedPage =>
                    "fixed size binary data length is not divisible by the element size"@,
                DecodeError::NotImplemented => "encoding is not implemented for fixed size binary"@,
                DecodeError::OutOfSpec =>
                    "fixed size binary dictionary index out-of-range or of no valid width"@,
                DecodeError::Internal => "decoded buffers are inconsistent"@,
            },
    {
        match self {
            DecodeError::MalformedPage => String::from_str(
                "fixed size binary data length is not divisible by the element size",
            ),
            DecodeError::NotImplemented => String::from_str(
                "encoding is not implemented for fixed size binary",
            ),
            DecodeError::OutOfSpec => String::from_str(
                "fixed size binary dictionary index out-of-range or of no valid width",
            ),
            DecodeError::Internal => String::from_str("decoded buffers are inconsistent"),
        }
    }
}

} // verus!
