//! Protocol error codes and error values, matching the Maelstrom error table.

use vstd::prelude::*;

verus! {

/// The protocol's error taxonomy. Each variant corresponds to one numeric
/// code on the wire; see [`ErrorCode::code`] for the mapping.
#[derive(Debug, Clone, Copy, PartialEq, Eq, Structural)]
pub enum ErrorCode {
    Timeout,
    NodeNotFound,
    NotSupported,
    TemporarilyUnavailable,
    MalformedRequest,
    Crash,
    Abort,
    KeyDoesNotExist,
    KeyAlreadyExists,
    PreconditionFailed,
    TransactionConflict,
}

impl ErrorCode {
    /// The numeric code carried on the wire for this error.
    pub open spec fn spec_code(self) -> u64 {
        match self {
            ErrorCode::Timeout => 0,
            ErrorCode::NodeNotFound => 1,
            ErrorCode::NotSupported => 10,
            ErrorCode::TemporarilyUnavailable => 11,
            ErrorCode::MalformedRequest => 12,
            ErrorCode::Crash => 13,
            ErrorCode::Abort => 14,
            ErrorCode::KeyDoesNotExist => 20,
            ErrorCode::KeyAlreadyExists => 21,
            ErrorCode::PreconditionFailed => 22,
            ErrorCode::TransactionConflict => 30,
        }
    }

    /// The error taxonomy read back from a numeric code; codes outside the
    /// table decode to `None`.
    pub open spec fn spec_from_code(value: u64) -> Option<ErrorCode> {
        match value {
            0u64 => Some(ErrorCode::Timeout),
            1u64 => Some(ErrorCode::NodeNotFound),
            10u64 => Some(ErrorCode::NotSupported),
            11u64 => Some(ErrorCode::TemporarilyUnavailable),
            12u64 => Some(ErrorCode::MalformedRequest),
            13u64 => Some(ErrorCode::Crash),
            14u64 => Some(ErrorCode::Abort),
            20u64 => Some(ErrorCode::KeyDoesNotExist),
            21u64 => Some(ErrorCode::KeyAlreadyExists),
            22u64 => Some(ErrorCode::PreconditionFailed),
            30u64 => Some(ErrorCode::TransactionConflict),
            _ => None,
        }
    }

    pub fn code(self) -> (c: u64)
        ensures
            c == self.spec_code(),
    {
        match self {
            ErrorCode::Timeout => 0,
            ErrorCode::NodeNotFound => 1,
            ErrorCode::NotSupported => 10,
            ErrorCode::TemporarilyUnavailable => 11,
            ErrorCode::MalformedRequest => 12,
            ErrorCode::Crash => 13,
            ErrorCode::Abort => 14,
            ErrorCode::KeyDoesNotExist => 20,
            ErrorCode::KeyAlreadyExists => 21,
            ErrorCode::PreconditionFailed => 22,
            ErrorCode::TransactionConflict => 30,
        }
    }

    /// Decode a numeric error code. Returns `None` exactly on the codes the
    /// table does not define.
    pub fn from_code(value: u64) -> (r: Option<ErrorCode>)
        ensures
            r == Self::spec_from_code(value),
    {
        match value {
            0 => Some(ErrorCode::Timeout),
            1 => Some(ErrorCode::NodeNotFound),
            10 => Some(ErrorCode::NotSupported),
            11 => Some(ErrorCode::TemporarilyUnavailable),
            12 => Some(ErrorCode::MalformedRequest),
            13 => Some(ErrorCode::Crash),
            14 => Some(ErrorCode::Abort),
            20 => Some(ErrorCode::KeyDoesNotExist),
            21 => Some(ErrorCode::KeyAlreadyExists),
            22 => Some(ErrorCode::PreconditionFailed),
            30 => Some(ErrorCode::TransactionConflict),
            _ => None,
        }
    }
}

/// Encoding then decoding a code is the identity: every variant's numeric
/// code reads back as that variant.
pub proof fn lemma_code_round_trip(c: ErrorCode)
    ensures
        ErrorCode::spec_from_code(c.spec_code()) == Some(c),
{
}

/// A protocol error: a code from the taxonomy and a human-readable text.
#[derive(Debug, Clone)]
pub struct Error {
    pub code: ErrorCode,
    pub text: String,
}

} // verus!
