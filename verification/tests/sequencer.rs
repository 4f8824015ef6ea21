use object_log::{
    BatchLocation, CommitBatch, CommitOutcome, IndexEntry, IndexRecord, PartitionKey,
    SequencerIndex,
};

fn loc(object: &str, start: u32, len: u32) -> BatchLocation {
    BatchLocation { object_id: object.to_string(), byte_start: start, byte_len: len }
}

fn batch<'a>(p: &str, count: i32, location: BatchLocation, meta: &'a ()) -> CommitBatch<'a, ()> {
    CommitBatch { partition: PartitionKey(p.to_string()), record_count: count, location, meta }
}

fn commit(index: &mut SequencerIndex, batches: &[CommitBatch<'_, ()>]) -> Vec<CommitOutcome> {
    let (plan, outcomes) = index.plan_commit(batches).expect("offsets fit");
    index.apply_commit(&plan);
    outcomes
}

#[test]
fn offsets_are_dense_per_partition_within_and_across_commits() {
    let mut index = SequencerIndex::new();
    let m = ();
    let a = PartitionKey("a".to_string());
    let b = PartitionKey("b".to_string());
    let out = commit(
        &mut index,
        &[
            batch("a", 3, loc("o1", 0, 10), &m),
            batch("b", 2, loc("o1", 10, 5), &m),
            batch("a", 4, loc("o1", 15, 7), &m),
        ],
    );
    assert_eq!(
        out,
        vec![
            CommitOutcome::Assigned { base_offset: 0, record_count: 3 },
            CommitOutcome::Assigned { base_offset: 0, record_count: 2 },
            CommitOutcome::Assigned { base_offset: 3, record_count: 4 },
        ]
    );
    assert_eq!(index.high_watermark(&a), 7);
    assert_eq!(index.high_watermark(&b), 2);
    let out = commit(&mut index, &[batch("a", 1, loc("o2", 0, 1), &m)]);
    assert_eq!(out, vec![CommitOutcome::Assigned { base_offset: 7, record_count: 1 }]);
    assert_eq!(index.high_watermark(&a), 8);
    assert_eq!(index.high_watermark(&PartitionKey("never".to_string())), 0);
    assert_eq!(index.log_start_offset(&a), 0);
}

#[test]
fn planning_does_not_touch_the_index() {
    let mut index = SequencerIndex::new();
    let m = ();
    let (plan, _) = index.plan_commit(&[batch("a", 5, loc("o1", 0, 1), &m)]).unwrap();
    assert_eq!(plan.len(), 1);
    assert_eq!(index.high_watermark(&PartitionKey("a".to_string())), 0);
    assert!(index.lookup(&PartitionKey("a".to_string()), 0).is_empty());
    index.apply_commit(&plan);
    assert_eq!(index.high_watermark(&PartitionKey("a".to_string())), 5);
}

#[test]
fn lookup_returns_entries_covering_the_offset_onward() {
    let mut index = SequencerIndex::new();
    let m = ();
    commit(&mut index, &[batch("a", 2, loc("o1", 0, 4), &m)]);
    commit(&mut index, &[batch("a", 3, loc("o2", 0, 6), &m)]);
    let p = PartitionKey("a".to_string());
    let all = index.lookup(&p, 0);
    assert_eq!(all.len(), 2);
    let from2 = index.lookup(&p, 2);
    assert_eq!(
        from2,
        vec![IndexEntry { location: loc("o2", 0, 6), base_offset: 2, record_count: 3 }]
    );
    assert_eq!(index.lookup(&p, 1).len(), 2);
    assert!(index.lookup(&p, 5).is_empty());
}

#[test]
fn truncation_reaps_only_unreferenced_objects() {
    let mut index = SequencerIndex::new();
    let m = ();
    // o1 is shared by partitions a and b; o2 and o3 hold only a.
    commit(&mut index, &[batch("a", 2, loc("o1", 0, 1), &m), batch("b", 1, loc("o1", 1, 1), &m)]);
    commit(&mut index, &[batch("a", 2, loc("o2", 0, 1), &m)]);
    commit(&mut index, &[batch("a", 2, loc("o3", 0, 1), &m)]);
    let a = PartitionKey("a".to_string());
    let dead = index.truncate_before(&a, 4);
    assert_eq!(dead, vec!["o2".to_string()]);
    assert_eq!(index.log_start_offset(&a), 4);
    assert_eq!(index.high_watermark(&a), 6);
    assert_eq!(index.lookup(&a, 0).len(), 1);
    // Dropping b's entry frees o1.
    let dead = index.truncate_before(&PartitionKey("b".to_string()), 1);
    assert_eq!(dead, vec!["o1".to_string()]);
    // Truncating past the end stops the log start at the high watermark.
    let dead = index.truncate_before(&a, 100);
    assert_eq!(dead, vec!["o3".to_string()]);
    assert_eq!(index.log_start_offset(&a), 6);
    // An unknown partition drops nothing.
    assert!(index.truncate_before(&PartitionKey("zz".to_string()), 10).is_empty());
}

#[test]
fn truncation_reports_each_dead_object_once() {
    let mut index = SequencerIndex::new();
    let m = ();
    commit(&mut index, &[batch("a", 1, loc("o1", 0, 1), &m), batch("a", 1, loc("o1", 1, 1), &m)]);
    let dead = index.truncate_before(&PartitionKey("a".to_string()), 2);
    assert_eq!(dead, vec!["o1".to_string()]);
}

#[test]
fn recovery_replays_commit_records() {
    let mut live = SequencerIndex::new();
    let m = ();
    let mut records = Vec::new();
    for (p, n, o) in [("a", 2, "o1"), ("b", 5, "o2"), ("a", 3, "o3")] {
        let (plan, _) = live.plan_commit(&[batch(p, n, loc(o, 0, 1), &m)]).unwrap();
        live.apply_commit(&plan);
        records.push(IndexRecord::Commit(plan));
    }
    let recovered = SequencerIndex::recover(&records).expect("ends fit");
    for p in ["a", "b", "c"] {
        let k = PartitionKey(p.to_string());
        assert_eq!(recovered.high_watermark(&k), live.high_watermark(&k));
        assert_eq!(recovered.lookup(&k, 0), live.lookup(&k, 0));
    }
    assert_eq!(recovered.manifest_key("_manifest/"), "_manifest/00000000000000000004");
}

#[test]
fn recovery_refuses_an_overflowing_entry() {
    let entries = vec![(
        PartitionKey("a".to_string()),
        IndexEntry { location: loc("o", 0, 1), base_offset: i64::MAX, record_count: 1 },
    )];
    assert!(!SequencerIndex::entries_fit(&entries));
    let records = vec![IndexRecord::Commit(entries)];
    assert!(SequencerIndex::recover(&records).is_none());
}

#[test]
fn planning_refuses_an_overflowing_commit() {
    let records = vec![IndexRecord::Commit(vec![(
        PartitionKey("a".to_string()),
        IndexEntry { location: loc("o", 0, 1), base_offset: i64::MAX - 1, record_count: 1 },
    )])];
    let index = SequencerIndex::recover(&records).unwrap();
    let m = ();
    assert!(index.plan_commit(&[batch("a", 1, loc("o2", 0, 1), &m)]).is_none());
    assert!(index.plan_commit(&[batch("b", 1, loc("o2", 0, 1), &m)]).is_some());
}

#[test]
fn manifest_keys_count_commits() {
    let mut index = SequencerIndex::new();
    assert_eq!(index.manifest_key("m/"), "m/00000000000000000001");
    let m = ();
    commit(&mut index, &[batch("a", 1, loc("o", 0, 1), &m)]);
    assert_eq!(index.manifest_key("m/"), "m/00000000000000000002");
    assert_eq!(PartitionKey("p".to_string()).as_str(), "p");
}

#[test]
fn truncation_survives_recovery() {
    let mut live = SequencerIndex::new();
    let m = ();
    let mut records = Vec::new();
    for (n, o) in [(2, "o1"), (3, "o2")] {
        let (plan, _) = live.plan_commit(&[batch("a", n, loc(o, 0, 1), &m)]).unwrap();
        live.apply_commit(&plan);
        records.push(IndexRecord::Commit(plan));
    }
    let a = PartitionKey("a".to_string());
    assert!(live.has_partition(&a));
    assert!(!live.has_partition(&PartitionKey("b".to_string())));
    let dead = live.apply_truncation(&a, 2);
    assert_eq!(dead, vec!["o1".to_string()]);
    records.push(IndexRecord::Truncate(a.clone(), 2));
    let recovered = SequencerIndex::recover(&records).unwrap();
    assert_eq!(recovered.log_start_offset(&a), 2);
    assert_eq!(recovered.log_start_offset(&a), live.log_start_offset(&a));
    assert_eq!(recovered.lookup(&a, 0), live.lookup(&a, 0));
    assert_eq!(recovered.lookup(&a, 0).len(), 1);
    assert_eq!(recovered.high_watermark(&a), 5);
    assert_eq!(recovered.commit_count(), 3);
    assert_eq!(recovered.manifest_key("m/"), live.manifest_key("m/"));
}
