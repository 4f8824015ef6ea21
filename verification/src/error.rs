//! The error type shared by the log, its storage adapters and its sequencers.
use vstd::prelude::*;

verus! {

/// Errors returned by the object-log engine, storage adapters, and sequencer.
#[derive(Clone, Debug, PartialEq, Eq)]
pub enum ObjectLogError {
    /// An object key was empty or contained a `..` path component or `\0`.
    InvalidObjectKey(String),
    /// The storage layer was unreachable or returned an I/O error.
    StorageUnavailable(String),
    /// A `get_range` request named a byte range outside the object, or inverted.
    RangeOutOfBounds(String),
    /// The index referenced an object that is no longer present in storage.
    MissingObject(String),
    /// A produce batch was malformed (e.g. empty, or below the configured floor).
    InvalidBatch(String),
    /// The sequencer rejected or failed to process a commit/lookup.
    Sequencer(String),
    /// A topic name was empty, or contained `\0`, `/`, or was a `.`/`..` component.
    InvalidTopic(String),
    /// A value could not be serialized into the segment or manifest format.
    Serialization(String),
    /// A stored segment failed its integrity or framing checks.
    CorruptSegment(String),
    /// A segment was written in a format version this library cannot read.
    UnsupportedSegmentVersion(u16),
    /// Records were not offset-contiguous where contiguity is required.
    OffsetDiscontinuity {
        /// The offset that should have come next.
        expected: u64,
        /// The offset that was found.
        actual: u64,
    },
    /// An idempotent-producer retry did not match the originally committed batch.
    SequenceConflict,
    /// The object store lacks a capability the log needs.
    UnsupportedCapability(String),
    /// A writer with a stale epoch was fenced off.
    Fenced,
    /// A compare-and-set found a different current version.
    Conflict,
    /// A put-if-absent found different bytes already stored under the key.
    ObjectConflict,
}

/// Whether an error is transient storage trouble that a retry may cure.
pub fn retryable_storage_error(err: &ObjectLogError) -> (r: bool)
    ensures
        r == (err is StorageUnavailable),
{
    matches!(err, ObjectLogError::StorageUnavailable(_))
}

/// The error reported for a storage failure carrying `message`.
pub fn unavailable(message: String) -> (e: ObjectLogError)
    ensures
        e == ObjectLogError::StorageUnavailable(message),
{
    ObjectLogError::StorageUnavailable(message)
}

/// A copy of an error, equal to it.
pub fn copy_error(e: &ObjectLogError) -> (r: ObjectLogError)
    ensures
        r == *e,
{
    match e {
        ObjectLogError::InvalidObjectKey(s) => ObjectLogError::InvalidObjectKey(s.clone()),
        ObjectLogError::StorageUnavailable(s) => ObjectLogError::StorageUnavailable(s.clone()),
        ObjectLogError::RangeOutOfBounds(s) => ObjectLogError::RangeOutOfBounds(s.clone()),
        ObjectLogError::MissingObject(s) => ObjectLogError::MissingObject(s.clone()),
        ObjectLogError::InvalidBatch(s) => ObjectLogError::InvalidBatch(s.clone()),
        ObjectLogError::Sequencer(s) => ObjectLogError::Sequencer(s.clone()),
        ObjectLogError::InvalidTopic(s) => ObjectLogError::InvalidTopic(s.clone()),
        ObjectLogError::Serialization(s) => ObjectLogError::Serialization(s.clone()),
        ObjectLogError::CorruptSegment(s) => ObjectLogError::CorruptSegment(s.clone()),
        ObjectLogError::UnsupportedSegmentVersion(v) => ObjectLogError::UnsupportedSegmentVersion(*v),
        ObjectLogError::OffsetDiscontinuity { expected, actual } => ObjectLogError::OffsetDiscontinuity {
            expected: *expected,
            actual: *actual,
        },
        ObjectLogError::SequenceConflict => ObjectLogError::SequenceConflict,
        ObjectLogError::UnsupportedCapability(s) => ObjectLogError::UnsupportedCapability(s.clone()),
        ObjectLogError::Fenced => ObjectLogError::Fenced,
        ObjectLogError::Conflict => ObjectLogError::Conflict,
        ObjectLogError::ObjectConflict => ObjectLogError::ObjectConflict,
    }
}

} // verus!
