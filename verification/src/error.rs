//! Error taxonomy for the marshalling boundary.
//!
//! Strict text conversions report [`InvalidEncodingError`]; the push/pop
//! protocol reports [`MarshalError`], which also carries the interpreter-side
//! tag information a caller needs to diagnose a mismatched stack slot.

use vstd::prelude::*;

verus! {

/// Interpreter-level tag of a stack slot.
#[derive(Clone, Copy, Debug, PartialEq, Eq, Structural)]
pub enum Tag {
    Nil,
    Bool,
    Int,
    Str,
}

/// Strict text decoding failed: the bytes are not valid UTF-8 free of zero
/// bytes. `offset` is the first position at which a left-to-right scan stops,
/// either a zero byte or the start of a malformed scalar encoding.
#[derive(Clone, Copy, Debug, PartialEq, Eq, Structural)]
pub struct InvalidEncodingError {
    pub offset: usize,
}

/// Failure of a push or pop protocol operation.
#[derive(Clone, Copy, Debug, PartialEq, Eq)]
pub enum MarshalError {
    /// A value could not be encoded as strict text for the interpreter.
    /// `offset` is the first offending byte position in its encoding.
    InvalidEncoding { offset: usize },
    /// The inspected stack slot does not carry the expected tag.
    /// `found` is `None` when the stack was empty.
    TypeMismatch { expected: Tag, found: Option<Tag> },
    /// The slot had the right tag but its byte content could not be
    /// converted into the requested native shape; `offset` is the first
    /// offending byte position.
    Decode { offset: usize },
}

impl MarshalError {
    /// Stable error-kind tag, so interpreter-side code can branch on the
    /// kind without understanding the native error's structure.
    pub fn kind_tag(&self) -> (t: u8)
        ensures
            t == self.spec_kind_tag(),
    {
        match self {
            MarshalError::InvalidEncoding { .. } => 1,
            MarshalError::TypeMismatch { .. } => 2,
            MarshalError::Decode { .. } => 3,
        }
    }

    /// The kind tag as a spec-level value.
    pub open spec fn spec_kind_tag(&self) -> u8 {
        match self {
            MarshalError::InvalidEncoding { .. } => 1,
            MarshalError::TypeMismatch { .. } => 2,
            MarshalError::Decode { .. } => 3,
        }
    }

    /// The message as a spec-level character sequence.
    pub open spec fn spec_message(&self) -> Seq<char> {
        match self {
            MarshalError::InvalidEncoding { .. } => "invalid encoding in string"@,
            MarshalError::TypeMismatch { .. } => "unexpected type on the stack"@,
            MarshalError::Decode { .. } => "failed to decode stack value"@,
        }
    }

    /// Human-readable description of the error kind.
    pub fn message(&self) -> (m: &'static str)
        ensures
            m@ == self.spec_message(),
    {
        match self {
            MarshalError::InvalidEncoding { .. } => "invalid encoding in string",
            MarshalError::TypeMismatch { .. } => "unexpected type on the stack",
            MarshalError::Decode { .. } => "failed to decode stack value",
        }
    }
}

} // verus!
