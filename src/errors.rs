//! Errors of unpacking messages.
use vstd::prelude::*;

verus! {

/// Why a message could not be unpacked.
#[derive(Debug, Clone, Copy, PartialEq, Eq, Structural)]
pub enum UnpackError {
    /// A node message holds no node.
    NullNodeError,
    /// A required field of a message is missing.
    NullFieldError,
    /// A type that is not an enum carries labels.
    LabelsError,
}

impl UnpackError {
    /// A sentence that says what went wrong.
    pub fn message(&self) -> (r: &'static str)
        ensures
            r@ == match *self {
                UnpackError::NullNodeError => "tried to unpack an empty node!"@,
                UnpackError::NullFieldError => "tried to unpack a protobuf object with an empty required field!"@,
                UnpackError::LabelsError => "tried to unpack a non-enum type with labels!"@,
            },
    {
        match self {
            UnpackError::NullNodeError => "tried to unpack an empty node!",
            UnpackError::NullFieldError => "tried to unpack a protobuf object with an empty required field!",
            UnpackError::LabelsError => "tried to unpack a non-enum type with labels!",
        }
    }
}

} // verus!
