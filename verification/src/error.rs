//! The failures that the store reports to its caller.

use crate::codec::{CodecError, ObjectKind};
use vstd::prelude::*;

verus! {

/// The cause of a failure of the backing medium.
#[derive(Clone, Copy, Debug, PartialEq, Eq, Structural)]
pub enum IoCause {
    /// The store root does not exist: the store was never initialized.
    MissingRoot,
}

/// A failure of a store operation.
#[derive(Clone, Copy, Debug, PartialEq, Eq, Structural)]
pub enum StoreError {
    /// The backing medium failed; the cause is attached.
    StorageIoError(IoCause),
    /// No entry exists under the requested hash.
    ObjectNotFound,
    /// The stored object is not of the kind that the caller expected.
    KindMismatch { expected: ObjectKind, actual: ObjectKind },
    /// The stored bytes hold no separator.
    MalformedObject,
    /// The stored bytes carry a tag that names no known kind.
    UnknownKind,
    /// The store root exists already.
    AlreadyInitialized,
}

/// The store failure that stands for a decoding failure.
pub open spec fn spec_from_codec(e: CodecError) -> StoreError {
    match e {
        CodecError::MalformedObject => StoreError::MalformedObject,
        CodecError::UnknownKind => StoreError::UnknownKind,
    }
}

impl StoreError {
    /// Turns a decoding failure into the store failure of the same name.
    pub fn from_codec(e: CodecError) -> (res: StoreError)
        ensures
            res == spec_from_codec(e),
    {
        match e {
            CodecError::MalformedObject => StoreError::MalformedObject,
            CodecError::UnknownKind => StoreError::UnknownKind,
        }
    }
}

} // verus!
