//! The failure vocabulary: typed contract errors, fatal invocation
//! faults, and codec failures.

use vstd::prelude::*;

verus! {

/// The typed errors an operation may hand back as an ordinary result.
/// Callers are expected to handle both arms of such a result.
#[derive(Clone, Copy, Debug, PartialEq, Eq, Structural)]
pub enum ContractError {
    AdminNotFound,
    InvalidValue,
    OptionNotFound,
}

/// The small-integer tag a `ContractError` is encoded as.
pub open spec fn error_code(e: ContractError) -> u8 {
    match e {
        ContractError::AdminNotFound => 1,
        ContractError::InvalidValue => 2,
        ContractError::OptionNotFound => 3,
    }
}

/// The `ContractError` a small-integer tag stands for, if any.
pub open spec fn error_of_code(c: u8) -> Option<ContractError> {
    if c == 1 {
        Some(ContractError::AdminNotFound)
    } else if c == 2 {
        Some(ContractError::InvalidValue)
    } else if c == 3 {
        Some(ContractError::OptionNotFound)
    } else {
        None
    }
}

impl ContractError {
    /// The small-integer tag of this error.
    pub fn code(&self) -> (c: u8)
        ensures
            c == error_code(*self),
            error_of_code(c) == Some(*self),
    {
        match self {
            ContractError::AdminNotFound => 1,
            ContractError::InvalidValue => 2,
            ContractError::OptionNotFound => 3,
        }
    }
}

/// Turns a small-integer tag back into the error it stands for.
pub fn error_from_code(c: u8) -> (r: Option<ContractError>)
    ensures
        r == error_of_code(c),
{
    if c == 1 {
        Some(ContractError::AdminNotFound)
    } else if c == 2 {
        Some(ContractError::InvalidValue)
    } else if c == 3 {
        Some(ContractError::OptionNotFound)
    } else {
        None
    }
}

/// An unrecoverable invocation signal. Operations that assume a storage
/// invariant already holds surface one of these instead of a typed
/// error; the external invocation layer must abort on it.
#[derive(Clone, Copy, Debug, PartialEq, Eq, Structural)]
pub enum Fault {
    /// A value the operation unconditionally expected was absent.
    MissingValue,
    /// The invocation carried no authorization from the required principal.
    NotAuthorized,
    /// Stored bytes did not decode as the shape the key owns.
    BadEncoding,
}

/// How a decode attempt failed.
#[derive(Clone, Copy, Debug, PartialEq, Eq, Structural)]
pub enum CodecError {
    /// The buffer was short, had trailing bytes, or was otherwise malformed.
    Decode,
    /// The buffer opens with the tag of a different shape.
    TypeMismatch,
}

} // verus!
