//! A buffered, multiplexing append log over pluggable object storage.
//!
//! The log stores an ordered, offset-addressed sequence of opaque payloads as
//! immutable objects. This crate is its verified core: the segment format,
//! key and name validation, the conditional-write object store and the blob
//! store, the sequencer's offset index, the manifest-based append/read
//! backend, and the decisions of the group-commit engine. The asynchronous
//! storage ports, threads and network clients that drive this core sit
//! outside it and call into it.
pub mod error;
pub mod text;
pub mod collections;
pub mod digest;
pub mod model;
pub mod segment;
pub mod store;
pub mod blob;
pub mod sequencer;
pub mod object_backend;
pub mod engine;
pub mod pipeline;
pub mod log_read;
pub mod s3;

pub use blob::{LocalBlobStore, MemoryBlobStore, concat_chunks, slice_range};
pub use collections::{StrMap, sort_strings};
pub use digest::sha256_hex;
pub use engine::{
    AppendOutcome, BufferStats, Durability, FetchCursor, FetchedBatch, FlushConfig, FlushQueue,
    LastWait, TakeDecision, admit_produce, answered_when_durable, buffer_limit, commit_replies,
    durable_outcome, entry_range, inflight_limit, layout_object, retry_delay_ms,
    sequenced_outcome, should_retry, write_replies,
};
pub use pipeline::{FlushAction, FlushEvent, FlushLoopState, flush_step};
pub use error::{ObjectLogError, copy_error, retryable_storage_error, unavailable};
pub use model::{
    AckMode, AppendBatch, AppendRecord, AppendResult, AppendedRecord, PartitionId, ProducerState,
    ReadBatch, ReadRequest, RecordHeader, TimestampPolicy, TopicName, TopicPartition,
};
pub use object_backend::{
    AppendWrite, Manifest, ManifestEntry, ObjectLogBackendConfig, ProducerCommit, ReadCursor,
    ReadStep, admit_append, find_duplicate, manifest_key, manifest_version, plan_write,
    producer_key, segment_key,
};
pub use s3::{MultipartPolicy, RangeRead, plan_range_read};
pub use segment::{Segment, decode_segment, encode_segment, validate_contiguous};
pub use sequencer::{
    BatchLocation, CommitBatch, CommitOutcome, IndexEntry, IndexRecord, PartitionKey, Sequencer,
    SequencerIndex,
};
pub use store::{
    MemoryObjectStore, ObjectKey, ObjectVersion, PutOutcome, StoreCapabilities, StoredObject,
    content_version, decide_put_if_absent, select_listed_keys, versions_agree,
};
