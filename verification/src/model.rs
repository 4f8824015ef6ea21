//! Log-facing data types: topics, partitions, records, and append/read requests.
use crate::error::ObjectLogError;
use vstd::prelude::*;
use vstd::string::*;

verus! {

/// Whether `s` is an acceptable topic name: non-empty, free of `\0` and `/`,
/// and not the path component `.` or `..` (with no `/` in it, the whole name
/// is its only path component).
pub open spec fn valid_topic_name(s: Seq<char>) -> bool {
    &&& s.len() > 0
    &&& !s.contains('\u{0}')
    &&& !s.contains('/')
    &&& s != seq!['.']
    &&& s != seq!['.', '.']
}

/// The topic-name law: a name is valid exactly when it is non-empty, has no
/// `\0` and no `/` in any position, and is neither `.` nor `..`; every other
/// character (such as `-`, `_` or `.` inside a longer name) is allowed.
pub proof fn lemma_valid_topic_names(s: Seq<char>)
    ensures
        valid_topic_name(s) <==> ({
            &&& s.len() > 0
            &&& forall|i: int| 0 <= i < s.len() ==> #[trigger] s[i] != '\u{0}' && s[i] != '/'
            &&& !(s.len() == 1 && s[0] == '.')
            &&& !(s.len() == 2 && s[0] == '.' && s[1] == '.')
        }),
{
    assert(!s.contains('\u{0}') <==> forall|i: int| 0 <= i < s.len() ==> #[trigger] s[i] != '\u{0}');
    assert(!s.contains('/') <==> forall|i: int| 0 <= i < s.len() ==> #[trigger] s[i] != '/');
    if s.len() == 1 && s[0] == '.' {
        assert(s =~= seq!['.']);
    }
    if s.len() == 2 && s[0] == '.' && s[1] == '.' {
        assert(s =~= seq!['.', '.']);
    }
}

/// Kafka-compatible topic name.
#[derive(Debug, PartialEq, Eq, Hash, PartialOrd, Ord)]
pub struct TopicName(String);

impl Clone for TopicName {
    fn clone(&self) -> (r: Self)
        ensures
            r@ == self@,
    {
        proof {
            use_type_invariant(self);
        }
        TopicName(self.0.clone())
    }
}

impl View for TopicName {
    type V = Seq<char>;

    closed spec fn view(&self) -> Seq<char> {
        self.0@
    }
}

impl TopicName {
    #[verifier::type_invariant]
    closed spec fn inv(self) -> bool {
        valid_topic_name(self.0@)
    }

    /// Create a topic name that is safe for Kafka-style use and object prefixes.
    ///
    /// Rejects empty names and names containing `\0`, `/`, or a `..` path
    /// component (returning [`ObjectLogError::InvalidTopic`]).
    pub fn new(value: String) -> (r: Result<TopicName, ObjectLogError>)
        ensures
            valid_topic_name(value@) ==> (r matches Ok(t) && t@ == value@),
            !valid_topic_name(value@) ==> r == Err::<TopicName, ObjectLogError>(
                ObjectLogError::InvalidTopic(value),
            ),
    {
        let n = value.as_str().unicode_len();
        let mut ok = n > 0;
        let mut i: usize = 0;
        while i < n
            invariant
                n == value@.len(),
                i <= n,
                ok == (n > 0 && forall|j: int| 0 <= j < i ==> value@[j] != '\u{0}' && value@[j] != '/'),
            decreases n - i,
        {
            let c = value.as_str().get_char(i);
            if c == '\u{0}' || c == '/' {
                ok = false;
            }
            i = i + 1;
        }
        if ok && n <= 2 {
            let c0 = value.as_str().get_char(0);
            if n == 1 && c0 == '.' {
                ok = false;
            } else if n == 2 && c0 == '.' && value.as_str().get_char(1) == '.' {
                ok = false;
            }
        }
        proof {
            if n > 0 && forall|j: int| 0 <= j < n ==> value@[j] != '\u{0}' && value@[j] != '/' {
                assert(!value@.contains('\u{0}'));
                assert(!value@.contains('/'));
            } else if n > 0 {
                let j = choose|j: int| 0 <= j < n && !(value@[j] != '\u{0}' && value@[j] != '/');
                assert(value@.contains(value@[j]));
            }
            if n == 1 && value@[0] != '.' {
                assert(value@ != seq!['.']);
            }
            if n == 2 && !(value@[0] == '.' && value@[1] == '.') {
                assert(value@ != seq!['.', '.']) by {
                    if value@ == seq!['.', '.'] {
                        assert(value@[0] == '.');
                    }
                }
            }
            if n == 1 && value@[0] == '.' {
                assert(value@ =~= seq!['.']);
            }
            if n == 2 && value@[0] == '.' && value@[1] == '.' {
                assert(value@ =~= seq!['.', '.']);
            }
        }
        if ok {
            Ok(TopicName(value))
        } else {
            Err(ObjectLogError::InvalidTopic(value))
        }
    }

    /// Borrow the validated topic name as a string slice.
    pub fn as_str(&self) -> (r: &str)
        ensures
            r@ == self@,
            valid_topic_name(self@),
    {
        proof {
            use_type_invariant(self);
        }
        self.0.as_str()
    }

    /// The topic name as an owned string.
    pub fn to_string(&self) -> (r: String)
        ensures
            r@ == self@,
    {
        self.0.clone()
    }
}

/// Zero-based partition identifier.
#[derive(Clone, Copy, Debug, PartialEq, Eq, Hash, PartialOrd, Ord)]
pub struct PartitionId(pub u32);

/// One ordered partition log, identified by its topic and partition.
#[derive(Debug, PartialEq, Eq, Hash, PartialOrd, Ord)]
pub struct TopicPartition {
    /// The owning topic.
    pub topic: TopicName,
    /// The partition within the topic.
    pub partition: PartitionId,
}

impl Clone for TopicPartition {
    fn clone(&self) -> (r: Self)
        ensures
            r.topic@ == self.topic@,
            r.partition == self.partition,
    {
        TopicPartition { topic: self.topic.clone(), partition: self.partition }
    }
}

impl TopicPartition {
    /// Create a topic-partition handle.
    pub fn new(topic: TopicName, partition: PartitionId) -> (r: TopicPartition)
        ensures
            r.topic == topic,
            r.partition == partition,
    {
        TopicPartition { topic, partition }
    }

    /// Whether two handles name the same topic partition.
    pub fn same_as(&self, other: &TopicPartition) -> (r: bool)
        ensures
            r == (self.topic@ == other.topic@ && self.partition.0 == other.partition.0),
    {
        let a = self.topic.to_string();
        let b = other.topic.to_string();
        a == b && self.partition.0 == other.partition.0
    }
}

/// The mathematical value of a record header: its name and value.
pub struct HeaderSpec {
    /// Header name.
    pub name: Seq<char>,
    /// Header value.
    pub value: Seq<u8>,
}

/// Ordered Kafka-compatible record header (key/value metadata on a record).
#[derive(Clone, Debug, PartialEq, Eq)]
pub struct RecordHeader {
    /// Header name.
    pub name: String,
    /// Header value (opaque bytes).
    pub value: Vec<u8>,
}

impl View for RecordHeader {
    type V = HeaderSpec;

    open spec fn view(&self) -> HeaderSpec {
        HeaderSpec { name: self.name@, value: self.value@ }
    }
}

impl RecordHeader {
    /// Create a record header from a name and value.
    pub fn new(name: String, value: Vec<u8>) -> (r: RecordHeader)
        ensures
            r.name == name,
            r.value == value,
    {
        RecordHeader { name, value }
    }
}

/// The value of a list of headers.
pub open spec fn headers_view(hs: Seq<RecordHeader>) -> Seq<HeaderSpec> {
    hs.map_values(|h: RecordHeader| h@)
}

/// The value of an optional byte string.
pub open spec fn opt_bytes_view(b: Option<Vec<u8>>) -> Option<Seq<u8>> {
    match b {
        Some(v) => Some(v@),
        None => None,
    }
}

/// Record supplied by a producer before offsets are assigned.
#[derive(Clone, Debug, PartialEq, Eq)]
pub struct AppendRecord {
    /// Optional partition key (opaque bytes).
    pub key: Option<Vec<u8>>,
    /// Record payload (opaque bytes).
    pub value: Vec<u8>,
    /// Ordered record headers.
    pub headers: Vec<RecordHeader>,
    /// Producer-supplied create-time in epoch milliseconds, if any. Honored only
    /// under [`TimestampPolicy::CreateTime`]; otherwise the append time is used.
    pub timestamp_ms: Option<i64>,
}

impl AppendRecord {
    /// Create a record with the given value and no key, headers, or timestamp.
    pub fn new(value: Vec<u8>) -> (r: AppendRecord)
        ensures
            r.key is None,
            r.value == value,
            r.headers@.len() == 0,
            r.timestamp_ms is None,
    {
        AppendRecord { key: None, value, headers: Vec::new(), timestamp_ms: None }
    }
}

/// The mathematical value of a stored record.
pub struct RecordSpec {
    /// Assigned offset.
    pub offset: u64,
    /// Optional key.
    pub key: Option<Seq<u8>>,
    /// Payload.
    pub value: Seq<u8>,
    /// Ordered headers.
    pub headers: Seq<HeaderSpec>,
    /// Resolved timestamp.
    pub timestamp_ms: i64,
}

/// Record returned by replay after an offset and append timestamp are assigned.
#[derive(Clone, Debug, PartialEq, Eq)]
pub struct AppendedRecord {
    /// Dense, monotonically assigned offset within the partition.
    pub offset: u64,
    /// Optional partition key (opaque bytes).
    pub key: Option<Vec<u8>>,
    /// Record payload (opaque bytes).
    pub value: Vec<u8>,
    /// Ordered record headers.
    pub headers: Vec<RecordHeader>,
    /// Resolved record timestamp in epoch milliseconds.
    pub timestamp_ms: i64,
}

impl View for AppendedRecord {
    type V = RecordSpec;

    open spec fn view(&self) -> RecordSpec {
        RecordSpec {
            offset: self.offset,
            key: opt_bytes_view(self.key),
            value: self.value@,
            headers: headers_view(self.headers@),
            timestamp_ms: self.timestamp_ms,
        }
    }
}

/// The value of a list of stored records.
pub open spec fn records_view(rs: Seq<AppendedRecord>) -> Seq<RecordSpec> {
    rs.map_values(|r: AppendedRecord| r@)
}


/// Kafka producer acknowledgement compatibility mode.
#[derive(Clone, Copy, Debug, PartialEq, Eq, Structural)]
pub enum AckMode {
    /// Fire-and-forget: the durable write still happens, but the result
    /// reports no committed offsets and `acked = false`.
    FireAndForget,
    /// Acknowledge once the leader has the write durably.
    Leader,
    /// Acknowledge once the write is durable (the default).
    All,
}

/// Timestamp behavior compatible with Kafka create-time / log-append-time.
#[derive(Clone, Copy, Debug, PartialEq, Eq, Structural)]
pub enum TimestampPolicy {
    /// Use the producer-supplied timestamp, falling back to the append time.
    CreateTime,
    /// Overwrite every record timestamp with the append time.
    LogAppendTime,
}

/// Metadata for Kafka-style idempotent producer duplicate suppression.
///
/// A retried batch with the same `(producer_id, producer_epoch,
/// base_sequence)` and record count returns the originally committed offsets
/// instead of appending again; a mismatch yields
/// [`ObjectLogError::SequenceConflict`].
#[derive(Clone, Copy, Debug, PartialEq, Eq, Hash, Structural)]
pub struct ProducerState {
    /// Stable producer identifier.
    pub producer_id: u64,
    /// Producer epoch, bumped to fence prior incarnations.
    pub producer_epoch: i16,
    /// First record sequence number in the batch.
    pub base_sequence: i32,
}

/// Append request for one topic partition.
#[derive(Clone, Debug)]
pub struct AppendBatch {
    /// Target partition.
    pub topic_partition: TopicPartition,
    /// Records to append, in order.
    pub records: Vec<AppendRecord>,
    /// Acknowledgement mode (affects only the returned offsets).
    pub acks: AckMode,
    /// Optional writer epoch, validated by an epoch guard before the write
    /// becomes visible.
    pub expected_epoch: Option<u64>,
    /// Optional idempotent-producer metadata.
    pub producer: Option<ProducerState>,
    /// How record timestamps are resolved.
    pub timestamp_policy: TimestampPolicy,
}

impl AppendBatch {
    /// A batch with default settings: [`AckMode::All`], no epoch, no producer
    /// metadata, and [`TimestampPolicy::CreateTime`].
    pub fn new(topic_partition: TopicPartition, records: Vec<AppendRecord>) -> (r: AppendBatch)
        ensures
            r.topic_partition == topic_partition,
            r.records == records,
            r.acks == AckMode::All,
            r.expected_epoch is None,
            r.producer is None,
            r.timestamp_policy == TimestampPolicy::CreateTime,
    {
        AppendBatch {
            topic_partition,
            records,
            acks: AckMode::All,
            expected_epoch: None,
            producer: None,
            timestamp_policy: TimestampPolicy::CreateTime,
        }
    }
}

/// Append outcome for one topic partition.
#[derive(Clone, Debug, PartialEq, Eq)]
pub struct AppendResult {
    /// The partition the batch was appended to.
    pub topic_partition: TopicPartition,
    /// First assigned offset, or `None` under [`AckMode::FireAndForget`].
    pub base_offset: Option<u64>,
    /// Last assigned offset, or `None` under [`AckMode::FireAndForget`].
    pub last_offset: Option<u64>,
    /// Number of records committed.
    pub record_count: usize,
    /// Whether the write was acknowledged (false only under [`AckMode::FireAndForget`]).
    pub acked: bool,
    /// Reference to the committed segment, when acknowledged.
    pub commit_ref: Option<String>,
}

/// Read request for one topic partition.
#[derive(Clone, Debug)]
pub struct ReadRequest {
    /// Partition to read from.
    pub topic_partition: TopicPartition,
    /// First offset to return (inclusive).
    pub start_offset: u64,
    /// Maximum number of records to return.
    pub max_records: usize,
}

/// Contiguous replay batch.
#[derive(Clone, Debug, PartialEq, Eq)]
pub struct ReadBatch {
    /// Records read, in contiguous offset order starting at the request offset.
    pub records: Vec<AppendedRecord>,
    /// The offset immediately after the last returned record (resume point).
    pub next_offset: u64,
    /// The partition high-watermark (next offset to be assigned), if known.
    pub high_watermark: Option<u64>,
}

} // verus!
