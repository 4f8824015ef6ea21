//! The Kafka-style append/read log over a conditional-write object store:
//! the manifest, its keys, and the decisions of `append` and `read`.
//!
//! An append validates the batch, recognizes an idempotent retry, writes one
//! segment object with put-if-absent and then publishes it by a
//! compare-and-set of the partition's manifest. A read walks the manifest's
//! entries, verifying each segment's checksum, framing and offsets.
use crate::collections::{StrMap, reversed};
use crate::digest::{sha256_digest, sha256_hex};
use crate::error::ObjectLogError;
use crate::model::{
    AckMode, AppendBatch, AppendRecord, AppendResult, AppendedRecord, ProducerState, ReadBatch,
    ReadRequest, RecordSpec, TimestampPolicy, TopicPartition, headers_view, opt_bytes_view,
    records_view, valid_topic_name,
};
use crate::segment::{
    DecodeFault, Segment, SegmentSpec, decode_segment, decode_spec, encode_segment,
    error_has_fault, lemma_segment_round_trip, offsets_contiguous, segment_bytes, segment_fits,
    segment_payload,
};
use crate::store::{ObjectKey, StoreCapabilities, valid_object_key};
use crate::text::{
    decimal, hex, push_decimal, push_decimal_padded, push_signed_decimal, push_str, signed_decimal,
    str_eq, zero_pad,
};
use vstd::prelude::*;
use vstd::string::*;

verus! {

/// Tuning of the object-store backend.
#[derive(Clone, Debug)]
pub struct ObjectLogBackendConfig {
    /// The fewest records a batch may carry, so that segments are not tiny.
    pub min_records_per_segment: usize,
    /// Lift the minimum (tests write one-record segments).
    pub allow_tiny_segments_for_tests: bool,
}

impl Default for ObjectLogBackendConfig {
    fn default() -> (r: Self)
        ensures
            r.min_records_per_segment == 2,
            !r.allow_tiny_segments_for_tests,
    {
        ObjectLogBackendConfig { min_records_per_segment: 2, allow_tiny_segments_for_tests: false }
    }
}

/// The manifest format version written by the serializer when the field is
/// missing.
pub fn manifest_version() -> (v: u16)
    ensures
        v == 1,
{
    1
}

/// The value of a manifest entry.
pub struct ManifestEntrySpec {
    /// Key of the segment object.
    pub segment_key: Seq<char>,
    /// First offset in the segment.
    pub base_offset: u64,
    /// Last offset in the segment.
    pub last_offset: u64,
    /// Number of records in the segment.
    pub record_count: usize,
    /// Writer epoch of the segment.
    pub epoch: u64,
    /// Lowercase hex SHA-256 of the segment bytes.
    pub checksum: Seq<char>,
}

/// One published segment of a partition.
#[derive(Debug)]
pub struct ManifestEntry {
    /// Key of the segment object.
    pub segment_key: String,
    /// First offset in the segment.
    pub base_offset: u64,
    /// Last offset in the segment.
    pub last_offset: u64,
    /// Number of records in the segment.
    pub record_count: usize,
    /// Writer epoch of the segment.
    pub epoch: u64,
    /// Lowercase hex SHA-256 of the segment bytes.
    pub checksum: String,
}

impl View for ManifestEntry {
    type V = ManifestEntrySpec;

    open spec fn view(&self) -> ManifestEntrySpec {
        ManifestEntrySpec {
            segment_key: self.segment_key@,
            base_offset: self.base_offset,
            last_offset: self.last_offset,
            record_count: self.record_count,
            epoch: self.epoch,
            checksum: self.checksum@,
        }
    }
}

/// The value of an idempotent producer's committed batch.
pub struct ProducerCommitSpec {
    /// First offset of the batch.
    pub base_offset: u64,
    /// Last offset of the batch.
    pub last_offset: u64,
    /// Number of records in the batch.
    pub record_count: usize,
    /// Key of the segment holding the batch.
    pub segment_key: Seq<char>,
}

/// The batch an idempotent producer committed, remembered for retries.
#[derive(Debug)]
pub struct ProducerCommit {
    /// First offset of the batch.
    pub base_offset: u64,
    /// Last offset of the batch.
    pub last_offset: u64,
    /// Number of records in the batch.
    pub record_count: usize,
    /// Key of the segment holding the batch.
    pub segment_key: String,
}

impl View for ProducerCommit {
    type V = ProducerCommitSpec;

    open spec fn view(&self) -> ProducerCommitSpec {
        ProducerCommitSpec {
            base_offset: self.base_offset,
            last_offset: self.last_offset,
            record_count: self.record_count,
            segment_key: self.segment_key@,
        }
    }
}

/// The value of a manifest.
pub struct ManifestSpec {
    /// Format version.
    pub version: u16,
    /// The next offset to be assigned.
    pub next_offset: u64,
    /// Published segments, in offset order.
    pub entries: Seq<ManifestEntrySpec>,
    /// Committed idempotent batches by producer key.
    pub producers: Map<Seq<char>, ProducerCommitSpec>,
}

/// A partition's manifest: the published segments and the producer table.
pub struct Manifest {
    /// Format version.
    pub version: u16,
    /// The next offset to be assigned.
    pub next_offset: u64,
    /// Published segments, in offset order.
    pub entries: Vec<ManifestEntry>,
    /// Committed idempotent batches by producer key, in key order.
    pub producers: StrMap<ProducerCommit>,
}

/// The values of a list of manifest entries.
pub open spec fn manifest_entries_view(es: Seq<ManifestEntry>) -> Seq<ManifestEntrySpec> {
    es.map_values(|e: ManifestEntry| e@)
}

impl View for Manifest {
    type V = ManifestSpec;

    open spec fn view(&self) -> ManifestSpec {
        ManifestSpec {
            version: self.version,
            next_offset: self.next_offset,
            entries: manifest_entries_view(self.entries@),
            producers: self.producers.map().map_values(|p: ProducerCommit| p@),
        }
    }
}

impl Manifest {
    /// Internal consistency: the producer table is kept in key order.
    pub open spec fn wf(&self) -> bool {
        self.producers.wf()
    }

    /// The manifest of a partition that has never been written.
    pub fn empty() -> (m: Manifest)
        ensures
            m.wf(),
            m@.version == 0,
            m@.next_offset == 0,
            m@.entries.len() == 0,
            m@.producers == Map::<Seq<char>, ProducerCommitSpec>::empty(),
    {
        let m = Manifest {
            version: 0,
            next_offset: 0,
            entries: Vec::new(),
            producers: StrMap::new(),
        };
        assert(m@.producers =~= Map::<Seq<char>, ProducerCommitSpec>::empty());
        m
    }
}

/// The producer key `{producer_id}:{producer_epoch}:{base_sequence}`.
pub open spec fn producer_key_text(p: ProducerState) -> Seq<char> {
    decimal(p.producer_id as nat) + seq![':'] + signed_decimal(p.producer_epoch as int) + seq![':']
        + signed_decimal(p.base_sequence as int)
}

/// The key under which a producer's committed batch is remembered.
pub fn producer_key(p: &ProducerState) -> (r: String)
    ensures
        r@ == producer_key_text(*p),
{
    let mut s = String::new();
    push_decimal(&mut s, p.producer_id);
    proof {
        reveal_strlit(":");
    }
    push_str(&mut s, ":");
    push_signed_decimal(&mut s, p.producer_epoch as i64);
    push_str(&mut s, ":");
    push_signed_decimal(&mut s, p.base_sequence as i64);
    assert(s@ =~= producer_key_text(*p));
    s
}

/// The partition directory `topics/{topic}/partitions/{partition:010}`.
pub open spec fn partition_dir_text(topic: Seq<char>, partition: u32) -> Seq<char> {
    "topics/"@ + topic + "/partitions/"@ + zero_pad(decimal(partition as nat), 10)
}

/// The manifest key `topics/{topic}/partitions/{partition:010}/manifest`.
pub open spec fn manifest_key_text(topic: Seq<char>, partition: u32) -> Seq<char> {
    partition_dir_text(topic, partition) + "/manifest"@
}

/// The segment key
/// `topics/{topic}/partitions/{partition:010}/segments/{base_offset:020}.olseg`.
pub open spec fn segment_key_text(topic: Seq<char>, partition: u32, base_offset: u64) -> Seq<char> {
    partition_dir_text(topic, partition) + "/segments/"@ + zero_pad(decimal(base_offset as nat), 20)
        + ".olseg"@
}

fn push_partition_dir(s: &mut String, tp: &TopicPartition)
    ensures
        final(s)@ == old(s)@ + partition_dir_text(tp.topic@, tp.partition.0),
        valid_topic_name(tp.topic@),
{
    let ghost start = s@;
    push_str(s, "topics/");
    push_str(s, tp.topic.as_str());
    push_str(s, "/partitions/");
    push_decimal_padded(s, tp.partition.0 as u64, 10);
    assert(s@ =~= start + partition_dir_text(tp.topic@, tp.partition.0));
}

/// The key of a partition's manifest object (always a valid key, the topic
/// being a valid name).
pub fn manifest_key(tp: &TopicPartition) -> (r: Result<ObjectKey, ObjectLogError>)
    ensures
        r matches Ok(k) && k@ == manifest_key_text(tp.topic@, tp.partition.0),
{
    let mut s = String::new();
    push_partition_dir(&mut s, tp);
    push_str(&mut s, "/manifest");
    assert(s@ =~= manifest_key_text(tp.topic@, tp.partition.0));
    proof {
        lemma_partition_keys_valid(tp.topic@, tp.partition.0, 0);
    }
    ObjectKey::new(s)
}

/// The key of the segment object holding a partition's records from
/// `base_offset` (always a valid key, the topic being a valid name).
pub fn segment_key(tp: &TopicPartition, base_offset: u64) -> (r: Result<ObjectKey, ObjectLogError>)
    ensures
        r matches Ok(k) && k@ == segment_key_text(tp.topic@, tp.partition.0, base_offset),
{
    let mut s = String::new();
    push_partition_dir(&mut s, tp);
    push_str(&mut s, "/segments/");
    push_decimal_padded(&mut s, base_offset, 20);
    push_str(&mut s, ".olseg");
    assert(s@ =~= segment_key_text(tp.topic@, tp.partition.0, base_offset));
    proof {
        lemma_partition_keys_valid(tp.topic@, tp.partition.0, base_offset);
    }
    ObjectKey::new(s)
}

/// Whether a batch is refused: it is empty, or below the configured minimum
/// while the minimum applies.
pub open spec fn batch_refused(config: ObjectLogBackendConfig, len: nat) -> bool {
    len == 0 || (!config.allow_tiny_segments_for_tests && len < config.min_records_per_segment)
}

/// Check a batch against the configuration and the store's capabilities
/// before anything is read or written: a refused batch is
/// [`ObjectLogError::InvalidBatch`]; a store without compare-and-set is
/// [`ObjectLogError::UnsupportedCapability`].
pub fn admit_append(
    config: &ObjectLogBackendConfig,
    capabilities: StoreCapabilities,
    batch: &AppendBatch,
) -> (r: Result<(), ObjectLogError>)
    ensures
        batch.records@.len() == 0 ==> (r matches Err(ObjectLogError::InvalidBatch(m)) && m@
            == "batch has no records"@),
        batch_refused(*config, batch.records@.len()) && batch.records@.len() > 0 ==> (r matches Err(
            ObjectLogError::InvalidBatch(m),
        ) && m@ == "batch has fewer records than a segment needs"@),
        !batch_refused(*config, batch.records@.len()) && !capabilities.compare_and_set ==> (r matches Err(
            ObjectLogError::UnsupportedCapability(m),
        ) && m@ == "compare_and_set"@),
        !batch_refused(*config, batch.records@.len()) && capabilities.compare_and_set ==> r is Ok,
{
    proof {
        reveal_strlit("batch has no records");
        reveal_strlit("batch has fewer records than a segment needs");
    }
    if batch.records.len() == 0 {
        return Err(ObjectLogError::InvalidBatch("batch has no records".to_string()));
    }
    if !config.allow_tiny_segments_for_tests && batch.records.len() < config.min_records_per_segment {
        return Err(
            ObjectLogError::InvalidBatch("batch has fewer records than a segment needs".to_string()),
        );
    }
    if !capabilities.compare_and_set {
        return Err(ObjectLogError::UnsupportedCapability("compare_and_set".to_string()));
    }
    Ok(())
}

/// What an idempotent retry finds in the manifest: nothing (no producer, or
/// none committed under its key); the committed batch's base offset, last
/// offset, record count and segment key when its record count matches; or a
/// conflict.
pub open spec fn duplicate_of(m: ManifestSpec, b: AppendBatch) -> Option<
    Result<(u64, u64, usize, Seq<char>), ()>,
> {
    match b.producer {
        None => None,
        Some(p) => if !m.producers.contains_key(producer_key_text(p)) {
            None
        } else {
            let c = m.producers[producer_key_text(p)];
            if c.record_count == b.records.len() {
                Some(Ok((c.base_offset, c.last_offset, c.record_count, c.segment_key)))
            } else {
                Some(Err(()))
            }
        },
    }
}

/// The view of an optional string.
pub open spec fn opt_text(s: Option<String>) -> Option<Seq<char>> {
    match s {
        Some(t) => Some(t@),
        None => None,
    }
}

/// Recognize an idempotent retry: `None` when the append must go ahead;
/// otherwise the originally committed offsets (acknowledged per the batch's
/// mode), or [`ObjectLogError::SequenceConflict`] when the record count
/// differs.
pub fn find_duplicate(manifest: &Manifest, batch: &AppendBatch) -> (r: Option<
    Result<AppendResult, ObjectLogError>,
>)
    requires
        manifest.wf(),
    ensures
        duplicate_of(manifest@, *batch) is None <==> r is None,
        duplicate_of(manifest@, *batch) == Some(Err::<(u64, u64, usize, Seq<char>), ()>(()))
            ==> r == Some(Err::<AppendResult, ObjectLogError>(ObjectLogError::SequenceConflict)),
        duplicate_of(manifest@, *batch) matches Some(Ok((base, last, count, key))) ==> (r matches Some(
            Ok(res),
        ) && res.topic_partition.topic@ == batch.topic_partition.topic@
            && res.topic_partition.partition == batch.topic_partition.partition && res.base_offset
            == Some(base) && res.last_offset == Some(last) && res.record_count == count && res.acked
            == (batch.acks != AckMode::FireAndForget) && opt_text(res.commit_ref) == Some(key)),
{
    match batch.producer {
        None => None,
        Some(p) => {
            let key = producer_key(&p);
            match manifest.producers.get(key.as_str()) {
                None => None,
                Some(c) => {
                    if c.record_count == batch.records.len() {
                        Some(
                            Ok(
                                AppendResult {
                                    topic_partition: batch.topic_partition.clone(),
                                    base_offset: Some(c.base_offset),
                                    last_offset: Some(c.last_offset),
                                    record_count: c.record_count,
                                    acked: batch.acks != AckMode::FireAndForget,
                                    commit_ref: Some(c.segment_key.clone()),
                                },
                            ),
                        )
                    } else {
                        Some(Err(ObjectLogError::SequenceConflict))
                    }
                },
            }
        },
    }
}

/// The timestamp a record is stored with.
pub open spec fn resolved_timestamp(r: AppendRecord, policy: TimestampPolicy, now: i64) -> i64 {
    match policy {
        TimestampPolicy::CreateTime => match r.timestamp_ms {
            Some(t) => t,
            None => now,
        },
        TimestampPolicy::LogAppendTime => now,
    }
}

/// The stored form of a producer's record at `offset`.
pub open spec fn stored_record(r: AppendRecord, offset: u64, policy: TimestampPolicy, now: i64) -> RecordSpec {
    RecordSpec {
        offset,
        key: opt_bytes_view(r.key),
        value: r.value@,
        headers: headers_view(r.headers@),
        timestamp_ms: resolved_timestamp(r, policy, now),
    }
}

/// The stored forms of a batch's records, at dense offsets from `base`.
pub open spec fn stored_records(
    rs: Seq<AppendRecord>,
    base: u64,
    policy: TimestampPolicy,
    now: i64,
) -> Seq<RecordSpec> {
    Seq::new(rs.len(), |i: int| stored_record(rs[i], (base + i) as u64, policy, now))
}

/// The segment an append of `b` at `base` writes.
pub open spec fn batch_segment(base: u64, b: AppendBatch, now: i64) -> SegmentSpec {
    SegmentSpec {
        topic: b.topic_partition.topic@,
        partition: b.topic_partition.partition.0,
        base_offset: base,
        epoch: match b.expected_epoch {
            Some(e) => e,
            None => 0,
        },
        records: stored_records(b.records@, base, b.timestamp_policy, now),
    }
}

/// Whether the batch's producer is acknowledged with offsets.
pub open spec fn acknowledged(b: AppendBatch) -> bool {
    b.acks != AckMode::FireAndForget
}

/// The manifest after publishing `b` as segment `key` with `checksum`: the
/// next offset advances past the batch, an entry is appended, and the
/// producer's batch (if any) is remembered.
pub open spec fn manifest_after_write(
    m: ManifestSpec,
    b: AppendBatch,
    key: Seq<char>,
    checksum: Seq<char>,
) -> ManifestSpec {
    let n = b.records.len();
    let base = m.next_offset;
    let last = (base + n - 1) as u64;
    ManifestSpec {
        version: m.version,
        next_offset: (base + n) as u64,
        entries: m.entries.push(
            ManifestEntrySpec {
                segment_key: key,
                base_offset: base,
                last_offset: last,
                record_count: n as usize,
                epoch: match b.expected_epoch {
                    Some(e) => e,
                    None => 0,
                },
                checksum,
            },
        ),
        producers: match b.producer {
            Some(p) => m.producers.insert(
                producer_key_text(p),
                ProducerCommitSpec {
                    base_offset: base,
                    last_offset: last,
                    record_count: n as usize,
                    segment_key: key,
                },
            ),
            None => m.producers,
        },
    }
}

/// What an append reports for `b` committed at `base..=last` in segment
/// `key`: the offsets and the segment only when acknowledged.
pub open spec fn reports_append(
    res: AppendResult,
    b: AppendBatch,
    base: u64,
    last: u64,
    key: Seq<char>,
) -> bool {
    &&& res.topic_partition.topic@ == b.topic_partition.topic@
    &&& res.topic_partition.partition == b.topic_partition.partition
    &&& res.base_offset == (if acknowledged(b) {
        Some(base)
    } else {
        None
    })
    &&& res.last_offset == (if acknowledged(b) {
        Some(last)
    } else {
        None
    })
    &&& res.record_count == b.records.len()
    &&& res.acked == acknowledged(b)
    &&& opt_text(res.commit_ref) == (if acknowledged(b) {
        Some(key)
    } else {
        None
    })
}

/// The writes an append makes and what it then reports: the segment object
/// (written with put-if-absent), the new manifest (published by
/// compare-and-set), and the result.
pub struct AppendWrite {
    /// Key of the new segment object.
    pub segment_key: ObjectKey,
    /// The encoded segment.
    pub segment_bytes: Vec<u8>,
    /// The manifest to publish.
    pub manifest: Manifest,
    /// What the append reports once the manifest is published.
    pub result: AppendResult,
}

/// Plan the writes of an append that is not a retry: the records get dense
/// offsets from the manifest's next offset and their timestamps per the
/// batch's policy (`now` being the append time), the segment is encoded and
/// checksummed, and the manifest gains its entry (and the producer's batch).
pub fn plan_write(manifest: Manifest, batch: AppendBatch, now: i64) -> (r: Result<
    AppendWrite,
    ObjectLogError,
>)
    requires
        manifest.wf(),
        batch.records@.len() > 0,
        manifest.next_offset + batch.records@.len() <= u64::MAX,
    ensures
        !segment_fits(batch_segment(manifest.next_offset, batch, now)) ==> r matches Err(
            ObjectLogError::Serialization(_),
        ),
        segment_fits(batch_segment(manifest.next_offset, batch, now)) ==> (r matches Ok(w) && w.segment_key@ == segment_key_text(
            batch.topic_partition.topic@,
            batch.topic_partition.partition.0,
            manifest.next_offset,
        ) && w.segment_bytes@ == segment_bytes(batch_segment(manifest.next_offset, batch, now))
            && decode_spec(w.segment_bytes@) == Ok::<SegmentSpec, DecodeFault>(
            batch_segment(manifest.next_offset, batch, now),
        ) && sha256_digest(segment_payload(batch_segment(manifest.next_offset, batch, now))).len()
            == 32
            && w.manifest.wf() && w.manifest@ == manifest_after_write(
            manifest@,
            batch,
            w.segment_key@,
            hex(sha256_digest(w.segment_bytes@)),
        ) && reports_append(
            w.result,
            batch,
            manifest.next_offset,
            (manifest.next_offset + batch.records@.len() - 1) as u64,
            w.segment_key@,
        )),
{
    let ghost b = batch;
    let ghost m0 = manifest@;
    let base = manifest.next_offset;
    let AppendBatch { topic_partition, records, acks, expected_epoch, producer, timestamp_policy } =
        batch;
    let ghost rs = records@;
    let n = records.len();
    let mut rev = reversed(records);
    let mut out: Vec<AppendedRecord> = Vec::new();
    let mut i: usize = 0;
    while i < n
        invariant
            n == rs.len(),
            i <= n,
            base + n <= u64::MAX,
            rev@ == rs.skip(i as int).reverse(),
            records_view(out@) == stored_records(rs, base, timestamp_policy, now).take(i as int),
        decreases n - i,
    {
        assert(rs.skip(i as int).reverse().last() == rs[i as int]);
        let r = rev.pop().unwrap();
        assert(rev@ =~= rs.skip(i + 1).reverse());
        let AppendRecord { key, value, headers, timestamp_ms } = r;
        let t = match timestamp_policy {
            TimestampPolicy::CreateTime => match timestamp_ms {
                Some(t) => t,
                None => now,
            },
            TimestampPolicy::LogAppendTime => now,
        };
        let ghost before = out@;
        let ghost ri = rs[i as int];
        let rec = AppendedRecord { offset: base + i as u64, key, value, headers, timestamp_ms: t };
        assert(rec@ == stored_record(ri, (base + i) as u64, timestamp_policy, now));
        out.push(rec);
        assert(records_view(out@) =~= records_view(before).push(rec@));
        assert(records_view(out@) =~= stored_records(rs, base, timestamp_policy, now).take(i + 1));
        i = i + 1;
    }
    assert(stored_records(rs, base, timestamp_policy, now).take(n as int) =~= stored_records(
        rs,
        base,
        timestamp_policy,
        now,
    ));
    let epoch = match expected_epoch {
        Some(e) => e,
        None => 0,
    };
    let segment = Segment { topic_partition, base_offset: base, epoch, records: out };
    assert(segment@ == batch_segment(base, b, now));
    assert(offsets_contiguous(base, segment@.records));
    let encoded = match encode_segment(&segment) {
        Ok(e) => e,
        Err(e) => {
            return Err(e);
        },
    };
    let checksum = sha256_hex(encoded.as_slice());
    let key = match segment_key(&segment.topic_partition, base) {
        Ok(k) => k,
        Err(e) => {
            return Err(e);
        },
    };
    let last = segment.last_offset();
    let key_text = key.to_string();
    let entry = ManifestEntry {
        segment_key: key.to_string(),
        base_offset: base,
        last_offset: last,
        record_count: n,
        epoch,
        checksum,
    };
    let mut manifest = manifest;
    manifest.next_offset = last + 1;
    let ghost entries_before = manifest.entries@;
    manifest.entries.push(entry);
    assert(manifest_entries_view(manifest.entries@) =~= manifest_entries_view(entries_before).push(
        entry@,
    ));
    match producer {
        Some(p) => {
            let pk = producer_key(&p);
            let commit = ProducerCommit {
                base_offset: base,
                last_offset: last,
                record_count: n,
                segment_key: key.to_string(),
            };
            manifest.producers.insert(pk, commit);
        },
        None => {},
    }
    proof {
        let goal = manifest_after_write(m0, b, key@, hex(sha256_digest(encoded@)));
        assert(manifest@.entries =~= goal.entries);
        assert(manifest@.producers =~= goal.producers);
        assert(manifest@.next_offset == goal.next_offset);
    }
    let acked = acks != AckMode::FireAndForget;
    let result = AppendResult {
        topic_partition: segment.topic_partition.clone(),
        base_offset: if acked {
            Some(base)
        } else {
            None
        },
        last_offset: if acked {
            Some(last)
        } else {
            None
        },
        record_count: n,
        acked,
        commit_ref: if acked {
            Some(key_text)
        } else {
            None
        },
    };
    Ok(AppendWrite { segment_key: key, segment_bytes: encoded, manifest, result })
}

/// Why absorbing a segment into a read fails.
pub enum ReadFault {
    /// The manifest names an object that is not stored.
    Missing,
    /// The object's SHA-256 differs from the manifest's checksum.
    Checksum,
    /// The object is not a well-formed segment.
    Decode(DecodeFault),
    /// The segment belongs to another topic partition.
    Partition,
    /// The segment's offsets differ from the manifest entry's.
    Bounds { expected: u64, actual: u64 },
    /// A record's offset is not the next expected one.
    Gap { expected: u64, actual: u64 },
    /// A record sits at the last representable offset.
    Overflow,
    /// The manifest names an invalid object key.
    InvalidKey,
}

/// Take a segment's records into a read: records below `start` are skipped,
/// the rest must continue at `next`, and taking stops once `max` records are
/// held. Returns the records held and the next offset.
pub open spec fn take_records(
    recs: Seq<RecordSpec>,
    start: u64,
    max: nat,
    out: Seq<RecordSpec>,
    next: u64,
) -> Result<(Seq<RecordSpec>, u64), ReadFault>
    decreases recs.len(),
{
    if recs.len() == 0 {
        Ok((out, next))
    } else {
        let r = recs[0];
        if r.offset < start {
            take_records(recs.drop_first(), start, max, out, next)
        } else if r.offset != next {
            Err(ReadFault::Gap { expected: next, actual: r.offset })
        } else if out.len() == max {
            Ok((out, next))
        } else if r.offset == u64::MAX {
            Err(ReadFault::Overflow)
        } else {
            take_records(recs.drop_first(), start, max, out.push(r), (r.offset + 1) as u64)
        }
    }
}

/// Whether segment `s` spans exactly the entry's offsets.
pub open spec fn spans_entry(s: SegmentSpec, e: ManifestEntrySpec) -> bool {
    &&& s.base_offset == e.base_offset
    &&& s.records.len() > 0
    &&& s.base_offset + s.records.len() - 1 == e.last_offset
}

/// Absorb the object stored for manifest entry `e` into a read of
/// `topic`/`partition` holding `out` and expecting offset `next` next.
pub open spec fn absorb_outcome(
    start: u64,
    max: nat,
    out: Seq<RecordSpec>,
    next: u64,
    e: ManifestEntrySpec,
    topic: Seq<char>,
    partition: u32,
    object: Option<Seq<u8>>,
) -> Result<(Seq<RecordSpec>, u64), ReadFault> {
    match object {
        None => Err(ReadFault::Missing),
        Some(bytes) => if hex(sha256_digest(bytes)) != e.checksum {
            Err(ReadFault::Checksum)
        } else {
            match decode_spec(bytes) {
                Err(f) => Err(ReadFault::Decode(f)),
                Ok(s) => if s.topic != topic || s.partition != partition {
                    Err(ReadFault::Partition)
                } else if !spans_entry(s, e) {
                    Err(ReadFault::Bounds { expected: e.base_offset, actual: s.base_offset })
                } else {
                    take_records(s.records, start, max, out, next)
                },
            }
        },
    }
}

/// Whether a read error is the one a fault calls for.
pub open spec fn read_error_has_fault(err: ObjectLogError, f: ReadFault, e: ManifestEntrySpec) -> bool {
    match f {
        ReadFault::Missing => err matches ObjectLogError::MissingObject(k) && k@ == e.segment_key,
        ReadFault::Checksum => err is CorruptSegment,
        ReadFault::Decode(d) => error_has_fault(err, d),
        ReadFault::Partition => err is CorruptSegment,
        ReadFault::Bounds { expected, actual } => err == (ObjectLogError::OffsetDiscontinuity {
            expected,
            actual,
        }),
        ReadFault::Gap { expected, actual } => err == (ObjectLogError::OffsetDiscontinuity {
            expected,
            actual,
        }),
        ReadFault::Overflow => err is CorruptSegment,
        ReadFault::InvalidKey => err matches ObjectLogError::InvalidObjectKey(k) && k@ == e.segment_key,
    }
}

/// What a read does with the next manifest entry.
pub enum ReadStep {
    /// The entry ends before the requested offset.
    Skip,
    /// Enough records are held; the read is done.
    Stop,
    /// Fetch the entry's segment object and absorb it.
    Fetch(ObjectKey),
}

/// The state of a read walking a manifest: the records taken so far and the
/// next offset expected.
pub struct ReadCursor {
    start_offset: u64,
    max_records: usize,
    records: Vec<AppendedRecord>,
    next_offset: u64,
}

impl ReadCursor {
    /// The first offset requested.
    pub closed spec fn start(&self) -> u64 {
        self.start_offset
    }

    /// The most records the read returns.
    pub closed spec fn max(&self) -> nat {
        self.max_records as nat
    }

    /// The records taken so far.
    pub closed spec fn taken(&self) -> Seq<RecordSpec> {
        records_view(self.records@)
    }

    /// The next offset expected.
    pub closed spec fn next(&self) -> u64 {
        self.next_offset
    }

    /// A read that has taken nothing yet.
    pub fn new(request: &ReadRequest) -> (c: ReadCursor)
        ensures
            c.start() == request.start_offset,
            c.max() == request.max_records,
            c.taken().len() == 0,
            c.next() == request.start_offset,
    {
        ReadCursor {
            start_offset: request.start_offset,
            max_records: request.max_records,
            records: Vec::new(),
            next_offset: request.start_offset,
        }
    }

    /// Decide what to do with the next manifest entry.
    pub fn step(&self, entry: &ManifestEntry) -> (r: Result<ReadStep, ObjectLogError>)
        ensures
            entry.last_offset < self.start() ==> r matches Ok(ReadStep::Skip),
            entry.last_offset >= self.start() && self.taken().len() >= self.max() ==> r matches Ok(
                ReadStep::Stop,
            ),
            entry.last_offset >= self.start() && self.taken().len() < self.max() && valid_object_key(
                entry.segment_key@,
            ) ==> (r matches Ok(ReadStep::Fetch(k)) && k@ == entry.segment_key@),
            entry.last_offset >= self.start() && self.taken().len() < self.max() && !valid_object_key(
                entry.segment_key@,
            ) ==> (r matches Err(ObjectLogError::InvalidObjectKey(s)) && s@ == entry.segment_key@),
    {
        if entry.last_offset < self.start_offset {
            return Ok(ReadStep::Skip);
        }
        if self.records.len() >= self.max_records {
            return Ok(ReadStep::Stop);
        }
        match ObjectKey::new(entry.segment_key.clone()) {
            Ok(k) => Ok(ReadStep::Fetch(k)),
            Err(e) => Err(e),
        }
    }

    /// Absorb the object fetched for `entry` (`None` when absent) into a read
    /// of `tp`: its checksum, framing, partition and offsets are verified and
    /// its records taken.
    pub fn absorb(&mut self, entry: &ManifestEntry, object: Option<Vec<u8>>, tp: &TopicPartition) -> (r:
        Result<(), ObjectLogError>)
        ensures
            final(self).start() == old(self).start(),
            final(self).max() == old(self).max(),
            match absorb_outcome(
                old(self).start(),
                old(self).max(),
                old(self).taken(),
                old(self).next(),
                entry@,
                tp.topic@,
                tp.partition.0,
                match object {
                    Some(b) => Some(b@),
                    None => None,
                },
            ) {
                Ok((out, next)) => r is Ok && final(self).taken() == out && final(self).next() == next,
                Err(f) => r matches Err(e) && read_error_has_fault(e, f, entry@),
            },
    {
        let bytes = match object {
            None => {
                return Err(ObjectLogError::MissingObject(entry.segment_key.clone()));
            },
            Some(b) => b,
        };
        let sum = sha256_hex(bytes.as_slice());
        if !str_eq(sum.as_str(), entry.checksum.as_str()) {
            return Err(ObjectLogError::CorruptSegment("manifest checksum mismatch".to_string()));
        }
        let segment = match decode_segment(bytes.as_slice()) {
            Ok(s) => s,
            Err(e) => {
                return Err(e);
            },
        };
        if !segment.topic_partition.same_as(tp) {
            return Err(
                ObjectLogError::CorruptSegment("segment topic partition mismatch".to_string()),
            );
        }
        let n = segment.records.len();
        let spans = if segment.base_offset != entry.base_offset || n == 0 {
            false
        } else {
            match segment.base_offset.checked_add((n - 1) as u64) {
                Some(last) => last == entry.last_offset,
                None => false,
            }
        };
        if !spans {
            return Err(
                ObjectLogError::OffsetDiscontinuity {
                    expected: entry.base_offset,
                    actual: segment.base_offset,
                },
            );
        }
        let ghost recs = segment@.records;
        let ghost goal = take_records(recs, self.start_offset, self.max_records as nat, self.taken(), self.next_offset);
        let mut rev = reversed(segment.records);
        assert(recs.skip(0) =~= recs);
        let mut i: usize = 0;
        while i < n
            invariant
                self.start_offset == old(self).start_offset,
                self.max_records == old(self).max_records,
                goal == absorb_outcome(
                    old(self).start(),
                    old(self).max(),
                    old(self).taken(),
                    old(self).next(),
                    entry@,
                    tp.topic@,
                    tp.partition.0,
                    match object {
                        Some(b) => Some(b@),
                        None => None,
                    },
                ),
                n == recs.len(),
                i <= n,
                rev@ == segment.records@.skip(i as int).reverse(),
                recs == records_view(segment.records@),
                take_records(
                    recs.skip(i as int),
                    self.start_offset,
                    self.max_records as nat,
                    self.taken(),
                    self.next_offset,
                ) == goal,
            decreases n - i,
        {
            assert(segment.records@.skip(i as int).reverse().last() == segment.records@[i as int]);
            let rec = rev.pop().unwrap();
            assert(rev@ =~= segment.records@.skip(i + 1).reverse());
            assert(recs.skip(i as int)[0] == rec@);
            assert(recs.skip(i as int).drop_first() =~= recs.skip(i + 1));
            if rec.offset < self.start_offset {
                i = i + 1;
                continue;
            }
            if rec.offset != self.next_offset {
                return Err(
                    ObjectLogError::OffsetDiscontinuity {
                        expected: self.next_offset,
                        actual: rec.offset,
                    },
                );
            }
            if self.records.len() == self.max_records {
                return Ok(());
            }
            if rec.offset == u64::MAX {
                return Err(ObjectLogError::CorruptSegment("record offset overflow".to_string()));
            }
            self.next_offset = rec.offset + 1;
            let ghost before = self.records@;
            self.records.push(rec);
            assert(records_view(self.records@) =~= records_view(before).push(rec@));
            i = i + 1;
        }
        assert(recs.skip(n as int) =~= Seq::<RecordSpec>::empty());
        Ok(())
    }

    /// The read's result: the records taken, the resume offset, and the
    /// manifest's next offset as the high watermark.
    pub fn finish(self, manifest: &Manifest) -> (r: ReadBatch)
        ensures
            records_view(r.records@) == self.taken(),
            r.next_offset == self.next(),
            r.high_watermark == Some(manifest.next_offset),
    {
        ReadBatch {
            records: self.records,
            next_offset: self.next_offset,
            high_watermark: Some(manifest.next_offset),
        }
    }
}

proof fn lemma_take_contiguous(recs: Seq<RecordSpec>, start: u64, max: nat, out: Seq<RecordSpec>, next: u64)
    requires
        forall|i: int| 0 <= i < recs.len() ==> (#[trigger] recs[i]).offset == next + i,
        start <= next,
        out.len() + recs.len() <= max,
        next + recs.len() <= u64::MAX,
    ensures
        take_records(recs, start, max, out, next) == Ok::<(Seq<RecordSpec>, u64), ReadFault>(
            (out + recs, (next + recs.len()) as u64),
        ),
    decreases recs.len(),
{
    if recs.len() == 0 {
        assert(out + recs =~= out);
    } else {
        let r = recs[0];
        assert(r.offset == next);
        let rest = recs.drop_first();
        assert forall|i: int| 0 <= i < rest.len() implies (#[trigger] rest[i]).offset == (next + 1) + i by {
            assert(rest[i] == recs[i + 1]);
        }
        lemma_take_contiguous(rest, start, max, out.push(r), (next + 1) as u64);
        assert(out.push(r) + rest =~= out + recs);
    }
}

/// What a read gives back of a write: the segment an append writes, fetched
/// for the manifest entry it publishes, is absorbed by a read starting at the
/// append's base offset as exactly the records appended, resuming right
/// after them.
///
/// The digest's 32-byte length is the one fact about SHA-256 the law uses;
/// the checksummed writer establishes it for the bytes it returns.
pub proof fn lemma_write_reads_back(m: ManifestSpec, b: AppendBatch, now: i64, max: nat)
    requires
        b.records.len() > 0,
        m.next_offset + b.records.len() <= u64::MAX,
        max >= b.records.len(),
        valid_topic_name(b.topic_partition.topic@),
        segment_fits(batch_segment(m.next_offset, b, now)),
        sha256_digest(segment_payload(batch_segment(m.next_offset, b, now))).len() == 32,
    ensures
        absorb_outcome(
            m.next_offset,
            max,
            Seq::empty(),
            m.next_offset,
            manifest_after_write(
                m,
                b,
                segment_key_text(b.topic_partition.topic@, b.topic_partition.partition.0, m.next_offset),
                hex(sha256_digest(segment_bytes(batch_segment(m.next_offset, b, now)))),
            ).entries.last(),
            b.topic_partition.topic@,
            b.topic_partition.partition.0,
            Some(segment_bytes(batch_segment(m.next_offset, b, now))),
        ) == Ok::<(Seq<RecordSpec>, u64), ReadFault>(
            (
                stored_records(b.records@, m.next_offset, b.timestamp_policy, now),
                (m.next_offset + b.records.len()) as u64,
            ),
        ),
{
    let s = batch_segment(m.next_offset, b, now);
    assert(offsets_contiguous(s.base_offset, s.records));
    lemma_segment_round_trip(s);
    lemma_take_contiguous(s.records, m.next_offset, max, Seq::empty(), m.next_offset);
    assert(Seq::<RecordSpec>::empty() + s.records =~= s.records);
}

/// An idempotent retry of a published batch finds its first commit: its
/// base offset, last offset, record count and segment.
pub proof fn lemma_retry_finds_first_commit(m: ManifestSpec, b: AppendBatch, key: Seq<char>, checksum: Seq<char>)
    requires
        b.producer is Some,
        b.records.len() > 0,
    ensures
        duplicate_of(manifest_after_write(m, b, key, checksum), b) == Some(
            Ok::<(u64, u64, usize, Seq<char>), ()>(
                (
                    m.next_offset,
                    (m.next_offset + b.records.len() - 1) as u64,
                    b.records.len() as usize,
                    key,
                ),
            ),
        ),
{
}

/// Appends are dense: a write starts at the manifest's next offset and the
/// next one starts right after it.
pub proof fn lemma_writes_are_dense(m: ManifestSpec, b: AppendBatch, key: Seq<char>, checksum: Seq<char>)
    requires
        b.records.len() > 0,
        m.next_offset + b.records.len() <= u64::MAX,
    ensures
        manifest_after_write(m, b, key, checksum).entries.last().base_offset == m.next_offset,
        manifest_after_write(m, b, key, checksum).next_offset == manifest_after_write(
            m,
            b,
            key,
            checksum,
        ).entries.last().last_offset + 1,
        manifest_after_write(m, b, key, checksum).next_offset == m.next_offset + b.records.len(),
{
}

/// Reads are contiguous and bounded: whatever a read takes from a segment
/// continues its records at consecutive offsets from the requested one,
/// resumes right after the last, and never exceeds the requested count.
pub proof fn lemma_reads_are_contiguous(
    recs: Seq<RecordSpec>,
    start: u64,
    max: nat,
    out: Seq<RecordSpec>,
    next: u64,
)
    requires
        forall|i: int| 0 <= i < out.len() ==> (#[trigger] out[i]).offset == start + i,
        next == start + out.len(),
        out.len() <= max,
    ensures
        take_records(recs, start, max, out, next) matches Ok((taken, resume)) ==> (forall|i: int|
            0 <= i < taken.len() ==> (#[trigger] taken[i]).offset == start + i) && resume == start
            + taken.len() && taken.len() <= max,
    decreases recs.len(),
{
    if recs.len() > 0 {
        let r = recs[0];
        if r.offset < start {
            lemma_reads_are_contiguous(recs.drop_first(), start, max, out, next);
        } else if r.offset == next && out.len() < max && r.offset != u64::MAX {
            let out2 = out.push(r);
            assert forall|i: int| 0 <= i < out2.len() implies (#[trigger] out2[i]).offset == start
                + i by {
                if i < out.len() {
                    assert(out2[i] == out[i]);
                }
            }
            lemma_reads_are_contiguous(recs.drop_first(), start, max, out2, (r.offset + 1) as u64);
        }
    }
}

/// Whether `s` holds no `.` and no `\0`.
pub open spec fn dotless_text(s: Seq<char>) -> bool {
    forall|j: int| 0 <= j < s.len() ==> s[j] != '.' && s[j] != '\u{0}'
}

proof fn lemma_decimal_dotless(n: nat)
    ensures
        dotless_text(decimal(n)),
        forall|j: int| 0 <= j < decimal(n).len() ==> decimal(n)[j] != '/',
    decreases n,
{
    if n < 10 {
        assert(decimal(n) == seq![crate::text::digit_char(n)]);
        assert(crate::text::digit_char(n) == (48 + n) as char);
    } else {
        lemma_decimal_dotless(n / 10);
        let d = decimal(n / 10);
        assert(decimal(n) == d.push(crate::text::digit_char(n % 10)));
        assert(crate::text::digit_char(n % 10) == (48 + n % 10) as char);
    }
}

proof fn lemma_zero_pad_dotless(n: nat, width: nat)
    ensures
        dotless_text(zero_pad(decimal(n), width)),
        forall|j: int|
            0 <= j < zero_pad(decimal(n), width).len() ==> zero_pad(decimal(n), width)[j] != '/',
{
    lemma_decimal_dotless(n);
}

/// A key of the shape `head + topic + tail`, where `head` ends in `/` and
/// has no `.`, `tail` starts with `/` and never holds two dots in a row,
/// and the topic is a valid topic name, is a valid object key.
proof fn lemma_topic_key_valid(head: Seq<char>, topic: Seq<char>, tail: Seq<char>)
    requires
        head.len() > 0,
        head.last() == '/',
        dotless_text(head),
        tail.len() > 0,
        tail[0] == '/',
        forall|j: int| 0 <= j < tail.len() ==> tail[j] != '\u{0}',
        forall|j: int|
            0 <= j < tail.len() && #[trigger] tail[j] == '.' ==> j + 1 < tail.len() && tail[j + 1]
                != '.',
        valid_topic_name(topic),
    ensures
        valid_object_key(head + topic + tail),
{
    let s = head + topic + tail;
    let a = head.len() as int;
    let b = a + topic.len();
    assert forall|j: int| 0 <= j < topic.len() implies topic[j] != '\u{0}' && topic[j] != '/' by {
        assert(topic.contains(topic[j]));
    }
    assert(!s.contains('\u{0}')) by {
        if s.contains('\u{0}') {
            let j = choose|j: int| 0 <= j < s.len() && s[j] == '\u{0}';
            if j < a {
                assert(s[j] == head[j]);
            } else if j < b {
                assert(s[j] == topic[j - a]);
            } else {
                assert(s[j] == tail[j - b]);
            }
        }
    }
    assert forall|i: int| !crate::store::dotdot_at(s, i) by {
        if crate::store::dotdot_at(s, i) {
            if i < a {
                assert(s[i] == head[i]);
            } else if i >= b {
                assert(s[i] == tail[i - b]);
                assert(s[i + 1] == tail[i + 1 - b]);
            } else {
                if i + 1 >= b {
                    assert(s[i + 1] == tail[0]);
                }
                assert(s[i + 1] == topic[i + 1 - a]);
                assert(s[i - 1] == '/');
                if i - 1 >= a {
                    assert(s[i - 1] == topic[i - 1 - a]);
                }
                assert(i == a);
                if i + 2 < b {
                    assert(s[i + 2] == topic[i + 2 - a]);
                }
                assert(i + 2 == b);
                assert(topic =~= seq!['.', '.']);
            }
        }
    }
}

/// Keys derived from a valid topic name are valid object keys: the
/// manifest key and every segment key of a partition.
pub proof fn lemma_partition_keys_valid(topic: Seq<char>, partition: u32, base_offset: u64)
    requires
        valid_topic_name(topic),
    ensures
        valid_object_key(manifest_key_text(topic, partition)),
        valid_object_key(segment_key_text(topic, partition, base_offset)),
{
    reveal_strlit("topics/");
    reveal_strlit("/partitions/");
    reveal_strlit("/manifest");
    reveal_strlit("/segments/");
    reveal_strlit(".olseg");
    lemma_zero_pad_dotless(partition as nat, 10);
    lemma_zero_pad_dotless(base_offset as nat, 20);
    let head = "topics/"@;
    let z = zero_pad(decimal(partition as nat), 10);
    let z2 = zero_pad(decimal(base_offset as nat), 20);
    let mtail = "/partitions/"@ + z + "/manifest"@;
    let stail = "/partitions/"@ + z + "/segments/"@ + z2 + ".olseg"@;
    assert(manifest_key_text(topic, partition) =~= head + topic + mtail);
    assert(segment_key_text(topic, partition, base_offset) =~= head + topic + stail);
    assert(dotless_text(mtail));
    let pre = "/partitions/"@ + z + "/segments/"@ + z2;
    assert(dotless_text(pre));
    assert(stail =~= pre + ".olseg"@);
    assert forall|j: int| 0 <= j < stail.len() && #[trigger] stail[j] == '.' implies j + 1
        < stail.len() && stail[j + 1] != '.' by {
        if j < pre.len() {
            assert(stail[j] == pre[j]);
        } else {
            assert(j == pre.len());
        }
    }
    lemma_topic_key_valid(head, topic, mtail);
    lemma_topic_key_valid(head, topic, stail);
}

} // verus!
