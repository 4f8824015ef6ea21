use object_log::{
    AppendedRecord, ObjectLogError, PartitionId, RecordHeader, Segment, TopicName, TopicPartition,
    decode_segment, encode_segment, validate_contiguous,
};

fn tp() -> TopicPartition {
    TopicPartition::new(TopicName::new("events".to_string()).unwrap(), PartitionId(0))
}

fn record(offset: u64, value: &[u8]) -> AppendedRecord {
    AppendedRecord {
        offset,
        key: None,
        value: value.to_vec(),
        headers: vec![],
        timestamp_ms: 1,
    }
}

#[test]
fn segment_round_trips() {
    let segment = Segment {
        topic_partition: tp(),
        base_offset: 10,
        epoch: 2,
        records: vec![AppendedRecord {
            offset: 10,
            key: Some(b"k".to_vec()),
            value: b"v".to_vec(),
            headers: vec![RecordHeader::new("h".to_string(), b"x".to_vec())],
            timestamp_ms: 123,
        }],
    };
    let encoded = encode_segment(&segment).unwrap();
    let decoded = decode_segment(&encoded).unwrap();
    assert_eq!(decoded, segment);
}

#[test]
fn checksum_mismatch_is_rejected() {
    let segment = Segment {
        topic_partition: tp(),
        base_offset: 0,
        epoch: 0,
        records: vec![AppendedRecord {
            offset: 0,
            key: None,
            value: b"v".to_vec(),
            headers: vec![],
            timestamp_ms: 1,
        }],
    };
    let mut encoded = encode_segment(&segment).unwrap().to_vec();
    encoded[12] ^= 0xff;
    assert!(matches!(
        decode_segment(&encoded),
        Err(ObjectLogError::CorruptSegment(_))
    ));
}

#[test]
fn empty_segment_is_refused_by_the_encoder() {
    let segment = Segment { topic_partition: tp(), base_offset: 0, epoch: 0, records: vec![] };
    assert!(matches!(encode_segment(&segment), Err(ObjectLogError::InvalidBatch(_))));
}

#[test]
fn offset_gap_is_reported_at_the_first_gap() {
    let segment = Segment {
        topic_partition: tp(),
        base_offset: 5,
        epoch: 0,
        records: vec![record(5, b"a"), record(6, b"b"), record(8, b"c")],
    };
    let expected = ObjectLogError::OffsetDiscontinuity { expected: 7, actual: 8 };
    assert_eq!(validate_contiguous(&segment), Err(expected.clone()));
    assert_eq!(encode_segment(&segment), Err(expected));
}

#[test]
fn encoding_is_laid_out_as_documented() {
    let segment = Segment {
        topic_partition: tp(),
        base_offset: 3,
        epoch: 9,
        records: vec![record(3, b"xyz")],
    };
    let encoded = encode_segment(&segment).unwrap();
    assert_eq!(&encoded[0..4], b"OLOG");
    assert_eq!(&encoded[4..6], &1u16.to_le_bytes());
    assert_eq!(&encoded[6..8], &6u16.to_le_bytes());
    assert_eq!(&encoded[8..14], b"events");
    assert_eq!(&encoded[14..18], &0u32.to_le_bytes());
    assert_eq!(&encoded[18..26], &3u64.to_le_bytes());
    assert_eq!(&encoded[26..34], &9u64.to_le_bytes());
    assert_eq!(&encoded[34..38], &1u32.to_le_bytes());
    // record: delta, timestamp, key_len (-1 = none), value_len, header_count, value
    assert_eq!(&encoded[38..42], &0u32.to_le_bytes());
    assert_eq!(&encoded[42..50], &1i64.to_le_bytes());
    assert_eq!(&encoded[50..54], &(-1i32).to_le_bytes());
    assert_eq!(&encoded[54..58], &3u32.to_le_bytes());
    assert_eq!(&encoded[58..60], &0u16.to_le_bytes());
    assert_eq!(&encoded[60..63], b"xyz");
    assert_eq!(encoded.len(), 63 + 32);
}

#[test]
fn truncated_and_trailing_bytes_are_corrupt() {
    let segment = Segment {
        topic_partition: tp(),
        base_offset: 0,
        epoch: 0,
        records: vec![record(0, b"v")],
    };
    let encoded = encode_segment(&segment).unwrap();
    assert!(matches!(decode_segment(&encoded[..20]), Err(ObjectLogError::CorruptSegment(_))));
    let mut longer = encoded.clone();
    longer.push(0);
    assert!(matches!(decode_segment(&longer), Err(ObjectLogError::CorruptSegment(_))));
}
