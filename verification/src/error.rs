//! Errors of store operations.
use crate::digits::{decimal, push_decimal};
use vstd::prelude::*;

verus! {

/// Error type for string store operations.
#[allow(inconsistent_fields)]
#[derive(Debug, Clone, PartialEq)]
pub enum StringStoreError {
    /// Index out of bounds error. Contains the invalid index and max index.
    IndexOutOfBounds { idx: u32, max: usize },
    /// Error when the store has reached its maximum capacity.
    StoreFull,
    /// Error when attempting to reconstruct a string with invalid parts.
    /// Contains details about which part caused the error.
    InvalidReconstruction { idx: u32, pos: usize, max: u32 },
    /// Error when string reconstruction would exceed the maximum allowed size.
    ReconstructionTooLarge { requested: usize, max: usize },
    /// Error when a string contains invalid UTF-8 sequences.
    InvalidUtf8(String),
    /// Error when path contains invalid characters or sequences.
    InvalidPath(String),
    /// Error when delimiter is invalid (e.g., empty when not allowed).
    InvalidDelimiter(String),
    /// Internal error, used when invariants are violated. Should never happen normally.
    InternalError(String),
}

/// Result of a store operation.
pub type StringStoreResult<T> = Result<T, StringStoreError>;

impl StringStoreError {
    /// The message of an error.
    pub open spec fn message(self) -> Seq<char> {
        match self {
            StringStoreError::IndexOutOfBounds { idx, max } => "index "@ + decimal(idx as int)
                + " out of bounds (max: "@ + decimal(max as int) + ")"@,
            StringStoreError::StoreFull => "string store has reached maximum capacity"@,
            StringStoreError::InvalidReconstruction { idx, pos, max } => "invalid index "@
                + decimal(idx as int) + " at position "@ + decimal(pos as int) + " (max: "@
                + decimal(max as int) + ")"@,
            StringStoreError::ReconstructionTooLarge {
                requested,
                max,
            } => "too many indexes to reconstruct (requested: "@ + decimal(requested as int)
                + ", max: "@ + decimal(max as int) + ")"@,
            StringStoreError::InvalidUtf8(info) => "invalid UTF-8 sequence: "@ + info@,
            StringStoreError::InvalidPath(info) => "invalid path: "@ + info@,
            StringStoreError::InvalidDelimiter(info) => "invalid delimiter: "@ + info@,
            StringStoreError::InternalError(info) => "internal error: "@ + info@,
        }
    }

    /// The message of the error, as it is shown to people.
    pub fn to_string(&self) -> (text: String)
        ensures
            text@ == self.message(),
    {
        let mut text = String::new();
        match self {
            StringStoreError::IndexOutOfBounds { idx, max } => {
                text.append("index ");
                push_decimal(&mut text, *idx as u64);
                text.append(" out of bounds (max: ");
                push_decimal(&mut text, *max as u64);
                text.append(")");
            },
            StringStoreError::StoreFull => {
                text.append("string store has reached maximum capacity");
            },
            StringStoreError::InvalidReconstruction { idx, pos, max } => {
                text.append("invalid index ");
                push_decimal(&mut text, *idx as u64);
                text.append(" at position ");
                push_decimal(&mut text, *pos as u64);
                text.append(" (max: ");
                push_decimal(&mut text, *max as u64);
                text.append(")");
            },
            StringStoreError::ReconstructionTooLarge { requested, max } => {
                text.append("too many indexes to reconstruct (requested: ");
                push_decimal(&mut text, *requested as u64);
                text.append(", max: ");
                push_decimal(&mut text, *max as u64);
                text.append(")");
            },
            StringStoreError::InvalidUtf8(info) => {
                text.append("invalid UTF-8 sequence: ");
                text.append(info);
            },
            StringStoreError::InvalidPath(info) => {
                text.append("invalid path: ");
                text.append(info);
            },
            StringStoreError::InvalidDelimiter(info) => {
                text.append("invalid delimiter: ");
                text.append(info);
            },
            StringStoreError::InternalError(info) => {
                text.append("internal error: ");
                text.append(info);
            },
        }
        assert(text@ =~= self.message());
        text
    }

    /// Create a new IndexOutOfBounds error.
    pub fn oob(idx: u32, max: usize) -> (error: Self)
        ensures
            error == (StringStoreError::IndexOutOfBounds { idx, max }),
    {
        Self::IndexOutOfBounds { idx, max }
    }

    /// Create a new InvalidReconstruction error.
    pub fn reconstruction(idx: u32, pos: usize, max: u32) -> (error: Self)
        ensures
            error == (StringStoreError::InvalidReconstruction { idx, pos, max }),
    {
        Self::InvalidReconstruction { idx, pos, max }
    }

    /// Create a new InvalidPath error with details.
    pub fn path<S: Into<String>>(info: S) -> (error: Self)
        ensures
            error is InvalidPath,
            call_ensures(S::into, (info,), error->InvalidPath_0),
    {
        Self::InvalidPath(info.into())
    }

    /// Create a new InvalidDelimiter error with details.
    pub fn delimiter<S: Into<String>>(info: S) -> (error: Self)
        ensures
            error is InvalidDelimiter,
            call_ensures(S::into, (info,), error->InvalidDelimiter_0),
    {
        Self::InvalidDelimiter(info.into())
    }

    /// Create a new InternalError with details.
    pub fn internal_error<S: Into<String>>(info: S) -> (error: Self)
        ensures
            error is InternalError,
            call_ensures(S::into, (info,), error->InternalError_0),
    {
        Self::InternalError(info.into())
    }
}

/// What each error says.
pub proof fn law_messages(idx: u32, pos: usize, max: usize, bound: u32, info: String)
    ensures
        (StringStoreError::IndexOutOfBounds { idx, max }).message() == "index "@ + decimal(
            idx as int,
        ) + " out of bounds (max: "@ + decimal(max as int) + ")"@,
        StringStoreError::StoreFull.message() == "string store has reached maximum capacity"@,
        (StringStoreError::InvalidReconstruction { idx, pos, max: bound }).message()
            == "invalid index "@ + decimal(idx as int) + " at position "@ + decimal(pos as int)
            + " (max: "@ + decimal(bound as int) + ")"@,
        (StringStoreError::ReconstructionTooLarge { requested: pos, max }).message()
            == "too many indexes to reconstruct (requested: "@ + decimal(pos as int) + ", max: "@
            + decimal(max as int) + ")"@,
        StringStoreError::InvalidUtf8(info).message() == "invalid UTF-8 sequence: "@ + info@,
        StringStoreError::InvalidPath(info).message() == "invalid path: "@ + info@,
        StringStoreError::InvalidDelimiter(info).message() == "invalid delimiter: "@ + info@,
        StringStoreError::InternalError(info).message() == "internal error: "@ + info@,
{
}

} // verus!
