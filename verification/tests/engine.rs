use object_log::{
    AppendOutcome, BatchLocation, BufferStats, CommitOutcome, Durability, FetchCursor, FlushAction,
    FlushConfig, FlushEvent, FlushLoopState, FlushQueue, IndexEntry, LastWait, ObjectLogError,
    TakeDecision, admit_produce, answered_when_durable, buffer_limit, commit_replies,
    durable_outcome, entry_range, flush_step, inflight_limit, layout_object, retry_delay_ms,
    sequenced_outcome, should_retry, write_replies,
};
use std::time::Duration;

fn config(max_bytes: usize, max_batches: usize) -> FlushConfig {
    FlushConfig {
        max_bytes,
        max_batches,
        linger: Duration::from_secs(3600),
        max_inflight_flushes: 4,
        max_buffered_bytes: 1 << 20,
    }
}

#[test]
fn default_flush_config() {
    let c = FlushConfig::default();
    assert_eq!(c.max_bytes, 128 * 1024 * 1024);
    assert_eq!(c.max_batches, 10_000);
    assert!(c.linger.is_zero());
    assert_eq!(c.max_inflight_flushes, 4);
    assert_eq!(c.max_buffered_bytes, 512 * 1024 * 1024);
    assert_eq!(buffer_limit(&c), 512 * 1024 * 1024);
    assert_eq!(inflight_limit(&c), 4);
}

#[test]
fn limits_never_fall_below_one_object_or_one_flush() {
    let mut c = config(1000, 10);
    c.max_buffered_bytes = 10;
    c.max_inflight_flushes = 0;
    assert_eq!(buffer_limit(&c), 1000);
    assert_eq!(inflight_limit(&c), 1);
}

#[test]
fn produce_admission() {
    assert_eq!(
        admit_produce(0, Durability::Sequenced),
        Err(ObjectLogError::InvalidBatch("record_count must be > 0".to_string()))
    );
    assert!(admit_produce(-3, Durability::Buffered).is_err());
    assert_eq!(
        admit_produce(1, Durability::Buffered),
        Ok(Some(AppendOutcome { base_offset: None, last_offset: None, durable: false, sequenced: false }))
    );
    assert_eq!(admit_produce(1, Durability::Durable), Ok(None));
    assert_eq!(admit_produce(5, Durability::Sequenced), Ok(None));
}

#[test]
fn sequenced_implies_durable() {
    let o = sequenced_outcome(CommitOutcome::Assigned { base_offset: 10, record_count: 5 });
    assert_eq!(o, AppendOutcome { base_offset: Some(10), last_offset: Some(14), durable: true, sequenced: true });
    let d = sequenced_outcome(CommitOutcome::Duplicate { base_offset: 3 });
    assert_eq!(d, AppendOutcome { base_offset: Some(3), last_offset: None, durable: true, sequenced: true });
    let durable = durable_outcome();
    assert!(durable.durable && !durable.sequenced && durable.base_offset.is_none());
    assert!(answered_when_durable(Durability::Durable));
    assert!(!answered_when_durable(Durability::Sequenced));
    assert!(!answered_when_durable(Durability::Buffered));
}

#[test]
fn retries_back_off_and_give_up() {
    let transient = ObjectLogError::StorageUnavailable("down".to_string());
    assert!(should_retry(&transient, 0));
    assert!(should_retry(&transient, 4));
    assert!(!should_retry(&transient, 5));
    assert!(!should_retry(&ObjectLogError::Conflict, 0));
    let delays: Vec<u64> = (0..8).map(retry_delay_ms).collect();
    assert_eq!(delays, vec![25, 50, 100, 200, 400, 800, 800, 800]);
}

#[test]
fn object_layout_places_batches_end_to_end() {
    let (key, locations, total) = layout_object("log/", 7, &vec![5, 0, 3]);
    assert_eq!(key, "log/00000000000000000007");
    assert_eq!(total, 8);
    assert_eq!(
        locations,
        vec![
            BatchLocation { object_id: key.clone(), byte_start: 0, byte_len: 5 },
            BatchLocation { object_id: key.clone(), byte_start: 5, byte_len: 0 },
            BatchLocation { object_id: key.clone(), byte_start: 5, byte_len: 3 },
        ]
    );
}

#[test]
fn fetch_ranges_and_budget() {
    let e = IndexEntry {
        location: BatchLocation { object_id: "o".to_string(), byte_start: 10, byte_len: 4 },
        base_offset: 3,
        record_count: 2,
    };
    assert_eq!(entry_range(&e), 10..14);
    let mut cursor = FetchCursor::new(5);
    assert!(cursor.wants_more());
    cursor.absorb(&e, Some(vec![1, 2, 3, 4, 5, 6])).unwrap();
    assert!(!cursor.wants_more());
    assert_eq!(
        cursor.absorb(&e, None),
        Err(ObjectLogError::MissingObject("o".to_string()))
    );
    let batches = cursor.finish();
    assert_eq!(batches.len(), 1);
    assert_eq!(batches[0].base_offset, 3);
    assert_eq!(batches[0].payload, vec![1, 2, 3, 4, 5, 6]);
    // A zero budget still returns the first batch.
    let mut zero = FetchCursor::new(0);
    assert!(zero.wants_more());
    zero.absorb(&e, Some(vec![])).unwrap();
    assert!(!zero.wants_more());
}

#[test]
fn queue_takes_batches_until_a_trigger() {
    let mut q: FlushQueue<&str> = FlushQueue::new(100);
    assert!(q.enqueue("a", 4, 0));
    assert!(q.enqueue("b", 4, 0));
    assert!(q.enqueue("c", 4, 0));
    assert_eq!(
        q.stats(),
        BufferStats { queued_bytes: 12, bytes_in_use: 12, queued_batches: 3, max_buffered_bytes: 100 }
    );
    // Bytes reach 8 after two batches.
    let (taken, bytes) = q.take_batch(&config(8, 100));
    assert_eq!(taken, vec!["a", "b"]);
    assert_eq!(bytes, 8);
    assert_eq!(q.len(), 1);
    assert_eq!(q.stats().queued_bytes, 4);
    assert_eq!(q.stats().bytes_in_use, 12);
    q.release(8);
    assert_eq!(q.stats().bytes_in_use, 4);
    let (rest, _) = q.take_batch(&config(8, 100));
    assert_eq!(rest, vec!["c"]);
    let (none, zero) = q.take_batch(&config(8, 100));
    assert!(none.is_empty());
    assert_eq!(zero, 0);
}

#[test]
fn queue_batch_count_trigger_and_at_least_one() {
    let mut q: FlushQueue<u32> = FlushQueue::new(100);
    for i in 0..5 {
        q.enqueue(i, 1, 0);
    }
    assert_eq!(q.take_batch(&config(1000, 2)).0, vec![0, 1]);
    assert_eq!(q.take_batch(&config(1000, 0)).0, vec![2]);
    assert_eq!(q.take_batch(&config(0, 1000)).0, vec![3]);
    assert_eq!(q.take_batch(&config(1000, 1000)).0, vec![4]);
}

#[test]
fn queue_flush_triggers_and_backpressure() {
    let mut q: FlushQueue<u8> = FlushQueue::new(10);
    let c = config(10, 3);
    assert!(!q.flush_due(&c, false));
    assert!(q.flush_due(&c, true));
    assert!(!q.must_wait(1000), "an idle buffer admits any batch");
    q.enqueue(1, 6, 0);
    assert!(!q.flush_due(&c, false));
    assert!(q.must_wait(5));
    assert!(!q.must_wait(4));
    q.enqueue(2, 4, 0);
    assert!(q.flush_due(&c, false));
    q.shut_down();
    assert!(q.shutting_down());
    assert!(!q.must_wait(100));
    assert!(!q.enqueue(3, 1, 0), "a shut-down queue drops new batches");
    assert_eq!(q.len(), 2);
}

#[test]
fn flushed_batches_read_back_from_their_locations() {
    let payloads = vec![b"first".to_vec(), Vec::new(), b"third batch".to_vec()];
    let lens: Vec<usize> = payloads.iter().map(|p| p.len()).collect();
    let (_, locations, total) = layout_object("obj/", 1, &lens);
    let object = object_log::concat_chunks(payloads.clone());
    assert_eq!(object.len(), total);
    for (location, payload) in locations.iter().zip(payloads.iter()) {
        let entry = IndexEntry { location: location.clone(), base_offset: 0, record_count: 1 };
        let range = entry_range(&entry);
        assert_eq!(&object_log::slice_range(&object, range).unwrap(), payload);
    }
}

#[test]
fn queue_accounting_tracks_queued_lengths() {
    let mut q: FlushQueue<u8> = FlushQueue::new(100);
    q.enqueue(1, 3, 0);
    q.enqueue(2, 0, 0);
    q.enqueue(3, 5, 0);
    let s = q.stats();
    assert_eq!((s.queued_bytes, s.bytes_in_use, s.queued_batches), (8, 8, 3));
    let (taken, bytes) = q.take_batch(&config(3, 100));
    assert_eq!(taken, vec![1]);
    assert_eq!(bytes, 3);
    let s = q.stats();
    assert_eq!((s.queued_bytes, s.bytes_in_use, s.queued_batches), (5, 8, 2));
    // Releasing more than was taken never drops below what is still queued.
    q.release(100);
    let s = q.stats();
    assert_eq!((s.queued_bytes, s.bytes_in_use), (5, 5));
}

#[test]
fn take_decisions() {
    let c = config(10, 3);
    let linger = 1000;
    let mut q: FlushQueue<u8> = FlushQueue::new(100);
    assert_eq!(q.take_decision(&c, false, linger, 0, LastWait::NoTimeout), TakeDecision::Empty);
    assert_eq!(q.take_decision(&c, true, linger, 0, LastWait::NoTimeout), TakeDecision::WaitForBatch);
    assert_eq!(q.take_decision(&c, true, linger, 0, LastWait::BatchWaitTimedOut), TakeDecision::Empty);
    q.enqueue(1, 4, 5000);
    // The oldest batch arrived at 5000: wait out the rest of its linger.
    assert_eq!(
        q.take_decision(&c, true, linger, 5300, LastWait::NoTimeout),
        TakeDecision::WaitForTrigger { nanos: 700 }
    );
    q.enqueue(2, 1, 5900);
    // A later arrival does not restart the oldest batch's linger.
    assert_eq!(
        q.take_decision(&c, true, linger, 5900, LastWait::NoTimeout),
        TakeDecision::WaitForTrigger { nanos: 100 }
    );
    assert_eq!(q.take_decision(&c, true, linger, 6000, LastWait::NoTimeout), TakeDecision::Take);
    assert_eq!(q.take_decision(&c, true, 0, 5300, LastWait::NoTimeout), TakeDecision::Take);
    // A clock reading before the arrival counts as no wait.
    assert_eq!(
        q.take_decision(&c, true, linger, 10, LastWait::NoTimeout),
        TakeDecision::WaitForTrigger { nanos: 1000 }
    );
    q.enqueue(3, 6, 5950);
    assert_eq!(q.take_decision(&c, false, linger, 5950, LastWait::NoTimeout), TakeDecision::Take);
    q.shut_down();
    q.take_batch(&c);
    assert_eq!(q.take_decision(&c, true, linger, 6000, LastWait::NoTimeout), TakeDecision::Shutdown);
}

#[test]
fn buffer_budget_admits_one_oversized_batch_alone() {
    let mut q: FlushQueue<u8> = FlushQueue::new(10);
    assert!(!q.must_wait(0));
    q.enqueue(1, 0, 0);
    assert!(!q.must_wait(25), "an idle buffer admits a batch larger than the budget");
    q.enqueue(2, 25, 0);
    assert_eq!(q.stats().bytes_in_use, 25);
    assert!(q.must_wait(0), "nothing else is let in while the budget is exceeded");
    let (taken, bytes) = q.take_batch(&config(100, 100));
    assert_eq!(taken, vec![1, 2]);
    q.release(bytes);
    assert_eq!(q.stats().bytes_in_use, 0);
    assert!(!q.must_wait(10));
}

#[test]
fn write_replies_by_durability() {
    let ds = vec![Durability::Buffered, Durability::Durable, Durability::Sequenced];
    let (replies, commit) = write_replies(&Ok(()), &ds);
    assert!(commit);
    assert_eq!(replies, vec![None, Some(Ok(durable_outcome())), None]);
    let err = ObjectLogError::StorageUnavailable("down".into());
    let (replies, commit) = write_replies(&Err(err.clone()), &ds);
    assert!(!commit, "a failed write is never committed");
    assert_eq!(replies, vec![None, Some(Err(err.clone())), Some(Err(err))]);
}

#[test]
fn commit_replies_by_durability() {
    let ds = vec![Durability::Buffered, Durability::Durable, Durability::Sequenced, Durability::Sequenced];
    let outcomes = vec![
        CommitOutcome::Assigned { base_offset: 0, record_count: 2 },
        CommitOutcome::Assigned { base_offset: 2, record_count: 1 },
        CommitOutcome::Assigned { base_offset: 3, record_count: 4 },
        CommitOutcome::Duplicate { base_offset: 1 },
    ];
    let replies = commit_replies(&Ok(outcomes), &ds);
    assert_eq!(
        replies,
        vec![
            None,
            None,
            Some(Ok(AppendOutcome {
                base_offset: Some(3),
                last_offset: Some(6),
                durable: true,
                sequenced: true
            })),
            Some(Ok(AppendOutcome {
                base_offset: Some(1),
                last_offset: None,
                durable: true,
                sequenced: true
            })),
        ]
    );
    let err = ObjectLogError::Sequencer("rejected".into());
    let replies = commit_replies(&Err(err.clone()), &ds);
    assert_eq!(replies, vec![None, None, Some(Err(err.clone())), Some(Err(err))]);
}

fn pipeline_config(max_inflight_flushes: usize) -> FlushConfig {
    let mut c = config(10, 3);
    c.max_inflight_flushes = max_inflight_flushes;
    c
}

#[test]
fn flush_loop_numbers_objects_and_keys_them() {
    let mut s = FlushLoopState::new(&pipeline_config(2), "log/".to_string());
    assert!(matches!(flush_step(&mut s, FlushEvent::Resume), FlushAction::TakeBatch { wait_for_more: true }));
    assert!(s.can_seal());
    match flush_step(&mut s, FlushEvent::BatchTaken) {
        FlushAction::StartPut { counter, key } => {
            assert_eq!(counter, 1);
            assert_eq!(key, "log/00000000000000000001");
        }
        other => panic!("unexpected {other:?}"),
    }
    // With a write in flight the next take does not wait.
    assert!(matches!(flush_step(&mut s, FlushEvent::Resume), FlushAction::TakeBatch { wait_for_more: false }));
    match flush_step(&mut s, FlushEvent::BatchTaken) {
        FlushAction::StartPut { counter, key } => {
            assert_eq!(counter, 2);
            assert_eq!(key, "log/00000000000000000002");
        }
        other => panic!("unexpected {other:?}"),
    }
    // Two writes in flight: the limit is reached, so the worker polls.
    assert!(!s.can_seal());
    assert!(matches!(flush_step(&mut s, FlushEvent::Resume), FlushAction::Poll));
}

#[test]
fn flush_loop_commits_in_seal_order() {
    let mut s = FlushLoopState::new(&pipeline_config(4), "o".to_string());
    flush_step(&mut s, FlushEvent::Resume);
    flush_step(&mut s, FlushEvent::BatchTaken);
    flush_step(&mut s, FlushEvent::Resume);
    flush_step(&mut s, FlushEvent::BatchTaken);
    assert!(matches!(flush_step(&mut s, FlushEvent::Resume), FlushAction::TakeBatch { wait_for_more: false }));
    assert!(matches!(flush_step(&mut s, FlushEvent::QueueEmpty), FlushAction::Poll));
    // The second object's write ends first: nothing is committed yet.
    assert!(matches!(
        flush_step(&mut s, FlushEvent::PutFinished { counter: 2, ok: false }),
        FlushAction::Poll
    ));
    // A report for an unknown object changes nothing.
    assert!(matches!(
        flush_step(&mut s, FlushEvent::PutFinished { counter: 7, ok: true }),
        FlushAction::Poll
    ));
    assert!(matches!(
        flush_step(&mut s, FlushEvent::PutFinished { counter: 1, ok: true }),
        FlushAction::Finish { counter: 1, write_ok: true }
    ));
    assert!(matches!(
        flush_step(&mut s, FlushEvent::Resume),
        FlushAction::Finish { counter: 2, write_ok: false }
    ));
    // Nothing unfinished: a new round waits for a batch.
    assert!(matches!(flush_step(&mut s, FlushEvent::Resume), FlushAction::TakeBatch { wait_for_more: true }));
    assert!(matches!(flush_step(&mut s, FlushEvent::QueueShutdown), FlushAction::Stop));
}

#[test]
fn flush_loop_drains_before_stopping() {
    let mut s = FlushLoopState::new(&pipeline_config(0), "o".to_string());
    flush_step(&mut s, FlushEvent::Resume);
    flush_step(&mut s, FlushEvent::BatchTaken);
    // At most one write in flight with a zero limit.
    assert!(matches!(flush_step(&mut s, FlushEvent::Resume), FlushAction::Poll));
    assert!(matches!(flush_step(&mut s, FlushEvent::Idle), FlushAction::Poll));
    // A new round takes first once a write slot is free, then commits.
    assert!(matches!(
        flush_step(&mut s, FlushEvent::PutFinished { counter: 1, ok: true }),
        FlushAction::TakeBatch { wait_for_more: false }
    ));
    assert!(matches!(
        flush_step(&mut s, FlushEvent::QueueEmpty),
        FlushAction::Finish { counter: 1, write_ok: true }
    ));
    assert!(matches!(flush_step(&mut s, FlushEvent::Resume), FlushAction::TakeBatch { wait_for_more: true }));
    flush_step(&mut s, FlushEvent::BatchTaken);
    assert!(matches!(flush_step(&mut s, FlushEvent::Resume), FlushAction::Poll));
    assert!(matches!(
        flush_step(&mut s, FlushEvent::PutFinished { counter: 2, ok: true }),
        FlushAction::TakeBatch { wait_for_more: false }
    ));
    assert!(matches!(
        flush_step(&mut s, FlushEvent::QueueShutdown),
        FlushAction::Finish { counter: 2, write_ok: true }
    ));
    assert!(matches!(flush_step(&mut s, FlushEvent::Resume), FlushAction::Stop));
}
