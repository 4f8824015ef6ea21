use object_log::{
    AckMode, AppendBatch, AppendRecord, AppendResult, Manifest, MemoryObjectStore, ObjectKey,
    ObjectLogBackendConfig, ObjectLogError, PartitionId, ProducerState, ReadBatch, ReadCursor,
    ReadRequest, ReadStep, RecordHeader, StoreCapabilities, TimestampPolicy, TopicName,
    TopicPartition, admit_append, find_duplicate, manifest_key, manifest_version, plan_write,
    producer_key, segment_key, sha256_hex,
};

fn topic_partition(name: &str) -> TopicPartition {
    TopicPartition::new(TopicName::new(name.to_string()).expect("valid topic"), PartitionId(0))
}

fn records(values: &[&[u8]]) -> Vec<AppendRecord> {
    values.iter().map(|v| AppendRecord::new(v.to_vec())).collect()
}

fn test_config() -> ObjectLogBackendConfig {
    ObjectLogBackendConfig { min_records_per_segment: 2, allow_tiny_segments_for_tests: true }
}

/// A synchronous stand-in for the backend over the in-memory store: the
/// manifest is kept as a value rather than serialized.
struct Backend {
    store: MemoryObjectStore,
    manifests: Vec<(String, Manifest)>,
    config: ObjectLogBackendConfig,
}

impl Backend {
    fn new(config: ObjectLogBackendConfig) -> Self {
        Backend { store: MemoryObjectStore::new(), manifests: Vec::new(), config }
    }

    fn take_manifest(&mut self, key: &str) -> Manifest {
        match self.manifests.iter().position(|(k, _)| k == key) {
            Some(i) => self.manifests.remove(i).1,
            None => Manifest::empty(),
        }
    }

    fn append(&mut self, batch: AppendBatch, now: i64) -> Result<AppendResult, ObjectLogError> {
        admit_append(&self.config, self.store.capabilities(), &batch)?;
        let mkey = manifest_key(&batch.topic_partition)?;
        let manifest = self.take_manifest(mkey.as_str());
        if let Some(done) = find_duplicate(&manifest, &batch) {
            self.manifests.push((mkey.as_str().to_string(), manifest));
            return done;
        }
        let write = match plan_write(manifest, batch, now) {
            Ok(w) => w,
            Err(e) => return Err(e),
        };
        self.store.put_if_absent(&write.segment_key, write.segment_bytes.clone())?;
        self.manifests.push((mkey.as_str().to_string(), write.manifest));
        Ok(write.result)
    }

    fn read(&mut self, request: ReadRequest) -> Result<ReadBatch, ObjectLogError> {
        let mkey = manifest_key(&request.topic_partition)?;
        let manifest = self.take_manifest(mkey.as_str());
        let mut cursor = ReadCursor::new(&request);
        let mut result = Ok(());
        for entry in &manifest.entries {
            match cursor.step(entry) {
                Ok(ReadStep::Skip) => continue,
                Ok(ReadStep::Stop) => break,
                Ok(ReadStep::Fetch(key)) => {
                    let object = self.store.get(&key).map(|o| o.value);
                    if let Err(e) = cursor.absorb(entry, object, &request.topic_partition) {
                        result = Err(e);
                        break;
                    }
                }
                Err(e) => {
                    result = Err(e);
                    break;
                }
            }
        }
        let out = cursor.finish(&manifest);
        self.manifests.push((mkey.as_str().to_string(), manifest));
        result.map(|_| out)
    }
}

#[test]
fn append_and_read_committed_offsets() {
    let mut backend = Backend::new(test_config());
    let tp = topic_partition("events");
    let result = backend.append(AppendBatch::new(tp.clone(), records(&[b"a", b"b", b"c"])), 7).unwrap();
    assert_eq!(result.base_offset, Some(0));
    assert_eq!(result.last_offset, Some(2));
    assert!(result.acked);
    assert_eq!(
        result.commit_ref.as_deref(),
        Some("topics/events/partitions/0000000000/segments/00000000000000000000.olseg")
    );

    let read = backend
        .read(ReadRequest { topic_partition: tp, start_offset: 0, max_records: 10 })
        .unwrap();
    assert_eq!(read.next_offset, 3);
    assert_eq!(read.high_watermark, Some(3));
    assert_eq!(read.records.len(), 3);
    assert_eq!(read.records[1].offset, 1);
    assert_eq!(read.records[1].value, b"b".to_vec());
    assert_eq!(read.records[1].timestamp_ms, 7);
}

#[test]
fn read_from_middle_returns_contiguous_subset() {
    let mut backend = Backend::new(test_config());
    let tp = topic_partition("partial");
    backend.append(AppendBatch::new(tp.clone(), records(&[b"a", b"b", b"c"])), 1).unwrap();
    let read = backend
        .read(ReadRequest { topic_partition: tp, start_offset: 1, max_records: 1 })
        .unwrap();
    assert_eq!(read.records.len(), 1);
    assert_eq!(read.records[0].offset, 1);
    assert_eq!(read.records[0].value, b"b".to_vec());
    assert_eq!(read.next_offset, 2);
}

#[test]
fn reads_span_segments_and_skip_old_ones() {
    let mut backend = Backend::new(test_config());
    let tp = topic_partition("spans");
    backend.append(AppendBatch::new(tp.clone(), records(&[b"a", b"b"])), 1).unwrap();
    let second = backend.append(AppendBatch::new(tp.clone(), records(&[b"c", b"d"])), 1).unwrap();
    assert_eq!(second.base_offset, Some(2));
    backend.append(AppendBatch::new(tp.clone(), records(&[b"e"])), 1).unwrap();
    let read = backend
        .read(ReadRequest { topic_partition: tp.clone(), start_offset: 3, max_records: 10 })
        .unwrap();
    let values: Vec<Vec<u8>> = read.records.iter().map(|r| r.value.clone()).collect();
    assert_eq!(values, vec![b"d".to_vec(), b"e".to_vec()]);
    assert_eq!(read.next_offset, 5);
    assert_eq!(read.high_watermark, Some(5));
    let none = backend
        .read(ReadRequest { topic_partition: tp, start_offset: 9, max_records: 10 })
        .unwrap();
    assert!(none.records.is_empty());
    assert_eq!(none.next_offset, 9);
}

#[test]
fn acks_none_returns_no_committed_offset_claim() {
    let mut backend = Backend::new(test_config());
    let mut batch = AppendBatch::new(topic_partition("fire_and_forget"), records(&[b"a"]));
    batch.acks = AckMode::FireAndForget;
    let result = backend.append(batch, 1).unwrap();
    assert_eq!(result.base_offset, None);
    assert_eq!(result.last_offset, None);
    assert!(!result.acked);
    assert_eq!(result.record_count, 1);
    assert_eq!(result.commit_ref, None);
}

#[test]
fn idempotent_producer_retry_returns_original_offsets() {
    let mut backend = Backend::new(test_config());
    let tp = topic_partition("idempotent");
    let producer = ProducerState { producer_id: 7, producer_epoch: 1, base_sequence: 100 };
    let mut batch = AppendBatch::new(tp.clone(), records(&[b"a", b"b"]));
    batch.producer = Some(producer);

    let first = backend.append(batch.clone(), 1).unwrap();
    let second = backend.append(batch, 1).unwrap();
    assert_eq!(first.base_offset, Some(0));
    assert_eq!(second.base_offset, Some(0));
    assert_eq!(second.last_offset, Some(1));

    let read = backend
        .read(ReadRequest { topic_partition: tp.clone(), start_offset: 0, max_records: 10 })
        .unwrap();
    assert_eq!(read.records.len(), 2);

    let mut conflicting = AppendBatch::new(tp, records(&[b"a", b"b", b"c"]));
    conflicting.producer = Some(producer);
    assert_eq!(backend.append(conflicting, 1).unwrap_err(), ObjectLogError::SequenceConflict);
}

#[test]
fn log_append_time_overwrites_record_timestamp() {
    let mut backend = Backend::new(test_config());
    let tp = topic_partition("timestamps");
    let mut record = AppendRecord::new(b"a".to_vec());
    record.timestamp_ms = Some(1);
    let mut kept = AppendRecord::new(b"b".to_vec());
    kept.timestamp_ms = Some(2);
    let mut batch = AppendBatch::new(tp.clone(), vec![record]);
    batch.timestamp_policy = TimestampPolicy::LogAppendTime;
    backend.append(batch, 500).unwrap();
    backend.append(AppendBatch::new(tp.clone(), vec![kept, AppendRecord::new(b"c".to_vec())]), 600).unwrap();
    let read = backend
        .read(ReadRequest { topic_partition: tp, start_offset: 0, max_records: 10 })
        .unwrap();
    let stamps: Vec<i64> = read.records.iter().map(|r| r.timestamp_ms).collect();
    assert_eq!(stamps, vec![500, 2, 600]);
}

#[test]
fn opaque_payloads_round_trip() {
    let mut backend = Backend::new(test_config());
    let tp = topic_partition("opaque_payloads");
    let mut first = AppendRecord::new(b"{\"cmd\":\"BatchClaim\"}".to_vec());
    first.key = Some(b"tenant/queue/shard".to_vec());
    first.headers.push(RecordHeader::new("source".to_string(), b"pqueue".to_vec()));
    let mut second = AppendRecord::new(b"\x00row-payload".to_vec());
    second.key = Some(b"tenant/collection/partition".to_vec());
    second.headers.push(RecordHeader::new("source".to_string(), b"niflheim".to_vec()));
    backend.append(AppendBatch::new(tp.clone(), vec![first, second]), 1).unwrap();
    let read = backend
        .read(ReadRequest { topic_partition: tp, start_offset: 0, max_records: 10 })
        .unwrap();
    assert_eq!(read.records[0].value, b"{\"cmd\":\"BatchClaim\"}".to_vec());
    assert_eq!(read.records[0].key, Some(b"tenant/queue/shard".to_vec()));
    assert_eq!(read.records[0].headers[0].value, b"pqueue".to_vec());
    assert_eq!(read.records[1].value, b"\x00row-payload".to_vec());
    assert_eq!(read.records[1].headers[0].value, b"niflheim".to_vec());
}

#[test]
fn corrupt_segment_is_rejected_on_read() {
    let mut backend = Backend::new(test_config());
    let tp = topic_partition("corrupt");
    backend.append(AppendBatch::new(tp.clone(), records(&[b"a", b"b"])), 1).unwrap();
    let key = ObjectKey::new(
        "topics/corrupt/partitions/0000000000/segments/00000000000000000000.olseg".to_string(),
    )
    .unwrap();
    let object = backend.store.get(&key).unwrap();
    let mut bytes = object.value.clone();
    bytes[16] ^= 0xff;
    backend.store.compare_and_set(&key, Some(object.version), bytes).unwrap();
    let err = backend
        .read(ReadRequest { topic_partition: tp, start_offset: 0, max_records: 10 })
        .unwrap_err();
    assert!(matches!(err, ObjectLogError::CorruptSegment(_)));
}

#[test]
fn missing_segment_is_reported() {
    let mut backend = Backend::new(test_config());
    let tp = topic_partition("missing");
    let result = backend.append(AppendBatch::new(tp.clone(), records(&[b"a"])), 1).unwrap();
    let key = ObjectKey::new(result.commit_ref.clone().unwrap()).unwrap();
    backend.store.delete(&key);
    let err = backend
        .read(ReadRequest { topic_partition: tp, start_offset: 0, max_records: 10 })
        .unwrap_err();
    assert_eq!(err, ObjectLogError::MissingObject(result.commit_ref.unwrap()));
}

#[test]
fn production_config_rejects_tiny_segments() {
    let config = ObjectLogBackendConfig::default();
    let batch = AppendBatch::new(topic_partition("tiny"), records(&[b"a"]));
    let caps = StoreCapabilities { compare_and_set: true, put_if_absent: true };
    assert!(matches!(admit_append(&config, caps, &batch), Err(ObjectLogError::InvalidBatch(_))));
    let ok = AppendBatch::new(topic_partition("tiny"), records(&[b"a", b"b"]));
    assert_eq!(admit_append(&config, caps, &ok), Ok(()));
    let empty = AppendBatch::new(topic_partition("tiny"), vec![]);
    assert!(matches!(admit_append(&test_config(), caps, &empty), Err(ObjectLogError::InvalidBatch(_))));
}

#[test]
fn stores_without_compare_and_set_are_refused() {
    let caps = StoreCapabilities { compare_and_set: false, put_if_absent: true };
    let batch = AppendBatch::new(topic_partition("caps"), records(&[b"a", b"b"]));
    assert_eq!(
        admit_append(&test_config(), caps, &batch),
        Err(ObjectLogError::UnsupportedCapability("compare_and_set".to_string()))
    );
}

#[test]
fn keys_and_producer_keys_are_formatted() {
    let tp = TopicPartition::new(TopicName::new("t".to_string()).unwrap(), PartitionId(42));
    assert_eq!(manifest_key(&tp).unwrap().as_str(), "topics/t/partitions/0000000042/manifest");
    assert_eq!(
        segment_key(&tp, 123).unwrap().as_str(),
        "topics/t/partitions/0000000042/segments/00000000000000000123.olseg"
    );
    let p = ProducerState { producer_id: 9, producer_epoch: -1, base_sequence: -20 };
    assert_eq!(producer_key(&p), "9:-1:-20");
    assert_eq!(manifest_version(), 1);
}

#[test]
fn written_manifest_records_the_segment() {
    let tp = topic_partition("manifest");
    let mut batch = AppendBatch::new(tp, records(&[b"a", b"b"]));
    batch.expected_epoch = Some(4);
    batch.producer = Some(ProducerState { producer_id: 1, producer_epoch: 0, base_sequence: 0 });
    let write = plan_write(Manifest::empty(), batch, 1).unwrap();
    assert_eq!(write.manifest.next_offset, 2);
    assert_eq!(write.manifest.entries.len(), 1);
    let entry = &write.manifest.entries[0];
    assert_eq!(entry.base_offset, 0);
    assert_eq!(entry.last_offset, 1);
    assert_eq!(entry.record_count, 2);
    assert_eq!(entry.epoch, 4);
    assert_eq!(entry.checksum, sha256_hex(&write.segment_bytes));
    assert_eq!(entry.segment_key, write.segment_key.as_str());
    assert_eq!(write.manifest.producers.len(), 1);
    assert_eq!(write.manifest.producers.key_at(0), "1:0:0");
}
