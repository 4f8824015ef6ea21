//! The decisions of the buffered, multiplexing log engine: produce
//! admission, the group-commit queue and its flush triggers, the layout of a
//! flushed object, how sequencer outcomes resolve producers, storage retries,
//! and fetch accounting. The threads, timers and I/O that drive them live
//! with the caller.
use crate::blob::range_of;
use crate::error::ObjectLogError;
use crate::sequencer::{BatchLocation, CommitOutcome, IndexEntry, LocationSpec};
use crate::text::{decimal, push_decimal_padded, push_str, zero_pad};
use std::collections::VecDeque;
use std::ops::Range;
use std::time::Duration;
use vstd::prelude::*;

verus! {

broadcast use vstd::std_specs::vecdeque::group_vec_dequeue_axioms;

/// How many times a storage call is retried after transient failures.
pub const STORAGE_RETRY_ATTEMPTS: usize = 5;

/// The delay before the first storage retry, in milliseconds.
pub const STORAGE_RETRY_BASE_DELAY_MS: u64 = 25;

/// The durability point a produce call resolves at.
#[derive(Clone, Copy, Debug, PartialEq, Eq, Structural)]
pub enum Durability {
    /// Resolve as soon as the batch is buffered (fire-and-forget; may be lost
    /// on crash before the flush). No offset is returned.
    Buffered,
    /// Resolve once the containing object is durably written. No offset yet.
    Durable,
    /// Resolve once the batch is durably written and sequenced (has a stable
    /// offset). The strong, no-loss level.
    Sequenced,
}

/// Returns `Duration::ZERO`. Trusted: nothing is stated of the value, since
/// `Duration` is opaque to the verifier.
#[verifier::external_body]
fn zero_duration() -> Duration {
    Duration::ZERO
}

/// Flush-trigger policy for the group-commit buffer.
#[derive(Clone, Copy, Debug)]
pub struct FlushConfig {
    /// Flush once the buffered object reaches this many bytes.
    pub max_bytes: usize,
    /// Flush once this many batches are buffered.
    pub max_batches: usize,
    /// Longest a batch waits in the buffer before a flush is forced; zero
    /// flushes as soon as a batch arrives.
    pub linger: Duration,
    /// Most sealed objects written concurrently.
    pub max_inflight_flushes: usize,
    /// Most bytes owned by queued plus in-flight flush work; producers wait
    /// once this budget is spent.
    pub max_buffered_bytes: usize,
}

impl Default for FlushConfig {
    /// 128 MiB objects, 10 000 batches, no linger, 4 concurrent flushes and
    /// a 512 MiB buffer.
    fn default() -> (c: Self)
        ensures
            c.max_bytes == 128 * 1024 * 1024,
            c.max_batches == 10_000,
            c.max_inflight_flushes == 4,
            c.max_buffered_bytes == 512 * 1024 * 1024,
    {
        FlushConfig {
            max_bytes: 128 * 1024 * 1024,
            max_batches: 10_000,
            linger: zero_duration(),
            max_inflight_flushes: 4,
            max_buffered_bytes: 512 * 1024 * 1024,
        }
    }
}

/// The byte budget the buffer enforces: never below one full object.
pub fn buffer_limit(config: &FlushConfig) -> (n: usize)
    ensures
        n == if config.max_buffered_bytes >= config.max_bytes {
            config.max_buffered_bytes
        } else {
            config.max_bytes
        },
{
    if config.max_buffered_bytes >= config.max_bytes {
        config.max_buffered_bytes
    } else {
        config.max_bytes
    }
}

/// The number of concurrent flushes: at least one.
pub fn inflight_limit(config: &FlushConfig) -> (n: usize)
    ensures
        n == if config.max_inflight_flushes >= 1 {
            config.max_inflight_flushes
        } else {
            1
        },
{
    if config.max_inflight_flushes >= 1 {
        config.max_inflight_flushes
    } else {
        1
    }
}

/// Outcome of a produce call.
#[derive(Clone, Debug, PartialEq, Eq)]
pub struct AppendOutcome {
    /// First assigned offset, when resolved at [`Durability::Sequenced`].
    pub base_offset: Option<i64>,
    /// Last assigned offset, when resolved at [`Durability::Sequenced`].
    pub last_offset: Option<i64>,
    /// Whether the batch is durably stored.
    pub durable: bool,
    /// Whether the batch has been sequenced (has an offset).
    pub sequenced: bool,
}

/// A batch read back by a fetch, with its assigned base offset.
#[derive(Clone, Debug, PartialEq, Eq)]
pub struct FetchedBatch {
    /// First offset of the batch.
    pub base_offset: i64,
    /// Number of records in the batch.
    pub record_count: i32,
    /// The opaque batch payload.
    pub payload: Vec<u8>,
}

/// Snapshot of the engine's buffering envelope.
#[derive(Clone, Debug, PartialEq, Eq)]
pub struct BufferStats {
    /// Bytes still waiting in the accumulation queue.
    pub queued_bytes: usize,
    /// Bytes owned by queued plus sealed in-flight flush work.
    pub bytes_in_use: usize,
    /// Batches still waiting in the accumulation queue.
    pub queued_batches: usize,
    /// Configured upper bound for `bytes_in_use`.
    pub max_buffered_bytes: usize,
}

/// Admit a produce call: a record count of zero or less is
/// [`ObjectLogError::InvalidBatch`]; a [`Durability::Buffered`] call resolves
/// at once with no offsets (`Some`); any other waits for its flush (`None`).
pub fn admit_produce(record_count: i32, durability: Durability) -> (r: Result<
    Option<AppendOutcome>,
    ObjectLogError,
>)
    ensures
        record_count <= 0 ==> (r matches Err(ObjectLogError::InvalidBatch(m)) && m@
            == "record_count must be > 0"@),
        record_count > 0 && durability == Durability::Buffered ==> r == Ok::<
            Option<AppendOutcome>,
            ObjectLogError,
        >(
            Some(AppendOutcome { base_offset: None, last_offset: None, durable: false, sequenced: false }),
        ),
        record_count > 0 && durability != Durability::Buffered ==> r == Ok::<
            Option<AppendOutcome>,
            ObjectLogError,
        >(None),
{
    if record_count <= 0 {
        return Err(ObjectLogError::InvalidBatch("record_count must be > 0".to_string()));
    }
    match durability {
        Durability::Buffered => Ok(
            Some(
                AppendOutcome { base_offset: None, last_offset: None, durable: false, sequenced: false },
            ),
        ),
        _ => Ok(None),
    }
}

/// Whether a producer waiting at `durability` is answered once its object
/// is durably written, before sequencing.
pub fn answered_when_durable(durability: Durability) -> (r: bool)
    ensures
        r == (durability == Durability::Durable),
{
    match durability {
        Durability::Durable => true,
        _ => false,
    }
}

/// The answer to a [`Durability::Durable`] producer once its object is
/// durably written.
pub fn durable_outcome() -> (o: AppendOutcome)
    ensures
        o == (AppendOutcome { base_offset: None, last_offset: None, durable: true, sequenced: false }),
{
    AppendOutcome { base_offset: None, last_offset: None, durable: true, sequenced: false }
}

/// Whether an outcome's last offset is a 64-bit offset.
pub open spec fn outcome_fits(o: CommitOutcome) -> bool {
    match o {
        CommitOutcome::Assigned { base_offset, record_count } => i64::MIN <= base_offset
            + record_count <= i64::MAX && i64::MIN <= base_offset + record_count - 1 <= i64::MAX,
        CommitOutcome::Duplicate { .. } => true,
    }
}

/// Whether the last offset of an outcome's range is a 64-bit offset (and is
/// computed without overflow).
pub fn last_offset_fits(outcome: &CommitOutcome) -> (r: bool)
    ensures
        r == outcome_fits(*outcome),
{
    match outcome {
        CommitOutcome::Assigned { base_offset, record_count } => match base_offset.checked_add(
            *record_count as i64,
        ) {
            Some(end) => end.checked_sub(1).is_some(),
            None => false,
        },
        CommitOutcome::Duplicate { .. } => true,
    }
}

/// The answer to a sequenced producer: durable and sequenced, with the
/// assigned range (`base..=base + count - 1`), or for a recognized duplicate
/// the first commit's base offset alone.
pub fn sequenced_outcome(outcome: CommitOutcome) -> (o: AppendOutcome)
    requires
        outcome_fits(outcome),
    ensures
        o.durable && o.sequenced,
        outcome matches CommitOutcome::Assigned { base_offset, record_count } ==> o.base_offset
            == Some(base_offset) && o.last_offset == Some((base_offset + record_count - 1) as i64),
        outcome matches CommitOutcome::Duplicate { base_offset } ==> o.base_offset == Some(
            base_offset,
        ) && o.last_offset is None,
{
    match outcome {
        CommitOutcome::Assigned { base_offset, record_count } => AppendOutcome {
            base_offset: Some(base_offset),
            last_offset: Some(base_offset + record_count as i64 - 1),
            durable: true,
            sequenced: true,
        },
        CommitOutcome::Duplicate { base_offset } => AppendOutcome {
            base_offset: Some(base_offset),
            last_offset: None,
            durable: true,
            sequenced: true,
        },
    }
}

/// The replies owed once an object's write has finished, one per batch
/// (`None`: nothing is sent now), and whether the commit goes ahead. A failed
/// write answers every waiting producer (all but [`Durability::Buffered`])
/// with its error and skips the commit; a successful one answers the
/// [`Durability::Durable`] producers as durable, before the commit.
pub fn write_replies(put: &Result<(), ObjectLogError>, durabilities: &Vec<Durability>) -> (r: (
    Vec<Option<Result<AppendOutcome, ObjectLogError>>>,
    bool,
))
    ensures
        r.0@.len() == durabilities@.len(),
        r.1 == (put is Ok),
        forall|i: int|
            0 <= i < durabilities@.len() ==> #[trigger] r.0@[i] == match put {
                Err(e) => if durabilities@[i] == Durability::Buffered {
                    None
                } else {
                    Some(Err::<AppendOutcome, ObjectLogError>(*e))
                },
                Ok(()) => if durabilities@[i] == Durability::Durable {
                    Some(
                        Ok::<AppendOutcome, ObjectLogError>(
                            AppendOutcome {
                                base_offset: None,
                                last_offset: None,
                                durable: true,
                                sequenced: false,
                            },
                        ),
                    )
                } else {
                    None
                },
            },
{
    let mut out: Vec<Option<Result<AppendOutcome, ObjectLogError>>> = Vec::new();
    let mut i: usize = 0;
    while i < durabilities.len()
        invariant
            i <= durabilities@.len(),
            out@.len() == i,
            forall|j: int|
                0 <= j < i ==> #[trigger] out@[j] == match put {
                    Err(e) => if durabilities@[j] == Durability::Buffered {
                        None
                    } else {
                        Some(Err::<AppendOutcome, ObjectLogError>(*e))
                    },
                    Ok(()) => if durabilities@[j] == Durability::Durable {
                        Some(
                            Ok::<AppendOutcome, ObjectLogError>(
                                AppendOutcome {
                                    base_offset: None,
                                    last_offset: None,
                                    durable: true,
                                    sequenced: false,
                                },
                            ),
                        )
                    } else {
                        None
                    },
                },
        decreases durabilities@.len() - i,
    {
        let d = durabilities[i];
        let reply = match put {
            Err(e) => match d {
                Durability::Buffered => None,
                _ => Some(Err(crate::error::copy_error(e))),
            },
            Ok(()) => if answered_when_durable(d) {
                Some(Ok(durable_outcome()))
            } else {
                None
            },
        };
        out.push(reply);
        i = i + 1;
    }
    (out, put.is_ok())
}

/// The replies owed once the commit has run, one per batch (`None`: nothing
/// is sent). Producers resolved at [`Durability::Sequenced`] get the outcome
/// of their batch (when the sequencer returned one for it), or the commit's
/// error; buffered producers wait for nothing, and durable ones were
/// answered before the commit. The outcomes owed to sequenced producers
/// must have 64-bit last offsets.
pub fn commit_replies(
    commit: &Result<Vec<CommitOutcome>, ObjectLogError>,
    durabilities: &Vec<Durability>,
) -> (r: Vec<Option<Result<AppendOutcome, ObjectLogError>>>)
    requires
        commit matches Ok(os) ==> forall|i: int|
            0 <= i < os@.len() && i < durabilities@.len() && durabilities@[i] == Durability::Sequenced
                ==> outcome_fits(#[trigger] os@[i]),
    ensures
        r@.len() == durabilities@.len(),
        forall|i: int|
            0 <= i < durabilities@.len() ==> (durabilities@[i] != Durability::Sequenced ==> (
            #[trigger] r@[i]) is None),
        forall|i: int|
            0 <= i < durabilities@.len() && durabilities@[i] == Durability::Sequenced ==> match commit {
                Err(e) => #[trigger] r@[i] == Some(Err::<AppendOutcome, ObjectLogError>(*e)),
                Ok(os) => if i < os@.len() {
                    r@[i] matches Some(Ok(o)) && o.durable && o.sequenced && o.base_offset == Some(
                        outcome_base(os@[i]),
                    ) && o.last_offset == outcome_last(os@[i])
                } else {
                    r@[i] is None
                },
            },
{
    let mut out: Vec<Option<Result<AppendOutcome, ObjectLogError>>> = Vec::new();
    let mut i: usize = 0;
    while i < durabilities.len()
        invariant
            i <= durabilities@.len(),
            out@.len() == i,
            commit matches Ok(os) ==> forall|k: int|
                0 <= k < os@.len() && k < durabilities@.len() && durabilities@[k] == Durability::Sequenced
                    ==> outcome_fits(#[trigger] os@[k]),
            forall|j: int|
                0 <= j < i ==> (durabilities@[j] != Durability::Sequenced ==> (#[trigger] out@[j]) is None),
            forall|j: int|
                0 <= j < i && durabilities@[j] == Durability::Sequenced ==> match commit {
                    Err(e) => #[trigger] out@[j] == Some(Err::<AppendOutcome, ObjectLogError>(*e)),
                    Ok(os) => if j < os@.len() {
                        out@[j] matches Some(Ok(o)) && o.durable && o.sequenced && o.base_offset == Some(
                            outcome_base(os@[j]),
                        ) && o.last_offset == outcome_last(os@[j])
                    } else {
                        out@[j] is None
                    },
                },
        decreases durabilities@.len() - i,
    {
        let reply = match durabilities[i] {
            Durability::Sequenced => match commit {
                Err(e) => Some(Err(crate::error::copy_error(e))),
                Ok(os) => if i < os.len() {
                    Some(Ok(sequenced_outcome(os[i])))
                } else {
                    None
                },
            },
            _ => None,
        };
        out.push(reply);
        i = i + 1;
    }
    out
}

/// The base offset an outcome reports.
pub open spec fn outcome_base(o: CommitOutcome) -> i64 {
    match o {
        CommitOutcome::Assigned { base_offset, .. } => base_offset,
        CommitOutcome::Duplicate { base_offset } => base_offset,
    }
}

/// The last offset an outcome reports: the end of an assigned range, none
/// for a duplicate.
pub open spec fn outcome_last(o: CommitOutcome) -> Option<i64> {
    match o {
        CommitOutcome::Assigned { base_offset, record_count } => Some(
            (base_offset + record_count - 1) as i64,
        ),
        CommitOutcome::Duplicate { .. } => None,
    }
}

/// Whether a failed storage call is tried again: only transient storage
/// trouble, and only while attempts remain.
pub fn should_retry(err: &ObjectLogError, attempt: usize) -> (r: bool)
    ensures
        r == (err is StorageUnavailable && attempt < STORAGE_RETRY_ATTEMPTS),
{
    crate::error::retryable_storage_error(err) && attempt < STORAGE_RETRY_ATTEMPTS
}

/// `2^k`.
pub open spec fn pow2(k: nat) -> nat
    decreases k,
{
    if k == 0 {
        1
    } else {
        2 * pow2((k - 1) as nat)
    }
}

/// The delay before retry number `attempt` (from 0), in milliseconds: the
/// base delay doubled per attempt, capped after five doublings.
pub fn retry_delay_ms(attempt: usize) -> (ms: u64)
    ensures
        ms == STORAGE_RETRY_BASE_DELAY_MS * pow2(if attempt < 5 {
            attempt as nat
        } else {
            5
        }),
{
    reveal_with_fuel(pow2, 6);
    let multiplier: u64 = if attempt == 0 {
        1
    } else if attempt == 1 {
        2
    } else if attempt == 2 {
        4
    } else if attempt == 3 {
        8
    } else if attempt == 4 {
        16
    } else {
        32
    };
    STORAGE_RETRY_BASE_DELAY_MS * multiplier
}

/// The sum of the first `n` lengths.
pub open spec fn prefix_sum(lens: Seq<usize>, n: int) -> int
    decreases n,
{
    if n <= 0 {
        0
    } else {
        prefix_sum(lens, n - 1) + lens[n - 1]
    }
}

/// The key of the `counter`-th flushed object: `{prefix}{counter:020}`.
pub open spec fn object_key_text(prefix: Seq<char>, counter: u64) -> Seq<char> {
    prefix + zero_pad(decimal(counter as nat), 20)
}

/// The layout of a flushed object: its key, where each batch lives in it
/// (batches laid end to end in order; positions and lengths are recorded as
/// 32-bit values), and its total size.
pub fn layout_object(prefix: &str, counter: u64, lens: &Vec<usize>) -> (r: (
    String,
    Vec<BatchLocation>,
    usize,
))
    requires
        prefix_sum(lens@, lens@.len() as int) <= usize::MAX,
    ensures
        r.0@ == object_key_text(prefix@, counter),
        r.1@.len() == lens@.len(),
        forall|i: int|
            0 <= i < lens@.len() ==> (#[trigger] r.1@[i])@ == (LocationSpec {
                object_id: object_key_text(prefix@, counter),
                byte_start: prefix_sum(lens@, i) as u32,
                byte_len: lens@[i] as u32,
            }),
        r.2 == prefix_sum(lens@, lens@.len() as int),
{
    let mut key = String::new();
    push_str(&mut key, prefix);
    push_decimal_padded(&mut key, counter, 20);
    let mut locations: Vec<BatchLocation> = Vec::new();
    let mut offset: usize = 0;
    let mut i: usize = 0;
    while i < lens.len()
        invariant
            key@ == object_key_text(prefix@, counter),
            i <= lens@.len(),
            prefix_sum(lens@, lens@.len() as int) <= usize::MAX,
            offset == prefix_sum(lens@, i as int),
            locations@.len() == i,
            forall|j: int|
                0 <= j < i ==> (#[trigger] locations@[j])@ == (LocationSpec {
                    object_id: object_key_text(prefix@, counter),
                    byte_start: prefix_sum(lens@, j) as u32,
                    byte_len: lens@[j] as u32,
                }),
        decreases lens@.len() - i,
    {
        proof {
            lemma_prefix_sum_mono(lens@, i + 1, lens@.len() as int);
        }
        let start = offset as u32;
        offset = offset + lens[i];
        locations.push(BatchLocation { object_id: key.clone(), byte_start: start, byte_len: lens[i] as u32 });
        i = i + 1;
    }
    (key, locations, offset)
}

proof fn lemma_prefix_sum_mono(lens: Seq<usize>, a: int, b: int)
    requires
        0 <= a <= b <= lens.len(),
    ensures
        prefix_sum(lens, a) <= prefix_sum(lens, b),
    decreases b - a,
{
    if a < b {
        lemma_prefix_sum_mono(lens, a, b - 1);
    }
}

/// The byte range of an index entry's batch within its object.
pub fn entry_range(entry: &IndexEntry) -> (r: Range<u64>)
    ensures
        r.start == entry.location.byte_start,
        r.end == entry.location.byte_start + entry.location.byte_len,
{
    let start = entry.location.byte_start as u64;
    start..start + entry.location.byte_len as u64
}

/// The state of a fetch: the batches read so far and their total size. A
/// fetch reads whole batches and stops before the next one once at least
/// `max_bytes` are held (but always returns at least one batch when any is
/// indexed).
pub struct FetchCursor {
    max_bytes: usize,
    total: usize,
    batches: Vec<FetchedBatch>,
}

impl FetchCursor {
    /// The byte budget.
    pub closed spec fn budget(&self) -> usize {
        self.max_bytes
    }

    /// The bytes held (saturating at `usize::MAX`).
    pub closed spec fn held(&self) -> usize {
        self.total
    }

    /// The batches read so far.
    pub closed spec fn batches(&self) -> Seq<FetchedBatch> {
        self.batches@
    }

    /// A fetch that has read nothing yet.
    pub fn new(max_bytes: usize) -> (c: FetchCursor)
        ensures
            c.budget() == max_bytes,
            c.held() == 0,
            c.batches().len() == 0,
    {
        FetchCursor { max_bytes, total: 0, batches: Vec::new() }
    }

    /// Whether the next indexed batch is read.
    pub fn wants_more(&self) -> (r: bool)
        ensures
            r == !(self.held() >= self.budget() && self.batches().len() > 0),
    {
        !(self.total >= self.max_bytes && self.batches.len() > 0)
    }

    /// Take the bytes read for `entry` (`None` when its object is absent,
    /// which is [`ObjectLogError::MissingObject`]).
    pub fn absorb(&mut self, entry: &IndexEntry, bytes: Option<Vec<u8>>) -> (r: Result<(), ObjectLogError>)
        ensures
            final(self).budget() == old(self).budget(),
            bytes is None ==> (r matches Err(ObjectLogError::MissingObject(k)) && k@
                == entry.location.object_id@ && final(self).batches() == old(self).batches()),
            bytes matches Some(b) ==> r is Ok && final(self).batches() == old(self).batches().push(
                FetchedBatch {
                    base_offset: entry.base_offset,
                    record_count: entry.record_count,
                    payload: b,
                },
            ) && final(self).held() == (if old(self).held() + b@.len() <= usize::MAX {
                (old(self).held() + b@.len()) as usize
            } else {
                usize::MAX
            }),
    {
        match bytes {
            None => Err(ObjectLogError::MissingObject(entry.location.object_id.clone())),
            Some(b) => {
                self.total = self.total.saturating_add(b.len());
                self.batches.push(
                    FetchedBatch {
                        base_offset: entry.base_offset,
                        record_count: entry.record_count,
                        payload: b,
                    },
                );
                Ok(())
            },
        }
    }

    /// The batches read.
    pub fn finish(self) -> (r: Vec<FetchedBatch>)
        ensures
            r@ == self.batches(),
    {
        self.batches
    }
}

/// The number of queued batches one flush takes: batches are taken in order
/// until their bytes reach `max_bytes` or their count reaches `max_batches`
/// (always at least one), or the queue runs out.
pub open spec fn take_count(lens: Seq<usize>, max_bytes: usize, max_batches: usize) -> nat
    decreases lens.len(),
{
    take_count_from(lens, max_bytes, max_batches, 0)
}

/// `take_count`, having taken the first `k` batches already.
pub open spec fn take_count_from(lens: Seq<usize>, max_bytes: usize, max_batches: usize, k: nat) -> nat
    decreases lens.len() - k,
{
    if k >= lens.len() {
        lens.len()
    } else if prefix_sum(lens, k + 1 as int) >= max_bytes || k + 1 >= max_batches {
        k + 1
    } else {
        take_count_from(lens, max_bytes, max_batches, k + 1)
    }
}

/// How the flush worker's last wait for a first batch ended.
#[derive(Clone, Copy, Debug, PartialEq, Eq, Structural)]
pub enum LastWait {
    /// It has not waited yet, or its last wait was woken before any timeout.
    NoTimeout,
    /// Its wait for a first batch ran out the linger time.
    BatchWaitTimedOut,
}

/// What the flush worker does next with the queue.
#[derive(Clone, Copy, Debug, PartialEq, Eq, Structural)]
pub enum TakeDecision {
    /// The queue is empty and the engine is shutting down: stop.
    Shutdown,
    /// Nothing to flush now: go on with the work in flight.
    Empty,
    /// Wait for a first batch (untimed without linger, else for the linger).
    WaitForBatch,
    /// Wait for a flush trigger, at most `nanos` nanoseconds: until the
    /// oldest queued batch has waited the linger.
    WaitForTrigger { nanos: u64 },
    /// Take a batch now.
    Take,
}

/// How long a batch that arrived at `arrived` has waited at `now` (no time
/// when the clock reads earlier).
pub open spec fn waited(arrived: u64, now: u64) -> int {
    if now >= arrived {
        now - arrived
    } else {
        0
    }
}

/// The group-commit queue: batches waiting to be flushed (each with its
/// payload length and arrival time), the bytes they hold, the bytes owned by
/// queued plus in-flight work, the byte budget, the length of the last batch
/// let into an idle buffer, and whether the engine is shutting down.
pub struct FlushQueue<T> {
    items: VecDeque<(T, usize, u64)>,
    bytes: usize,
    bytes_in_use: usize,
    limit: usize,
    alone: Ghost<usize>,
    shutdown: bool,
}

impl<T> FlushQueue<T> {
    /// The waiting batches, in arrival order.
    pub closed spec fn items(&self) -> Seq<T> {
        self.items@.map_values(|e: (T, usize, u64)| e.0)
    }

    /// Their payload lengths.
    pub closed spec fn lens(&self) -> Seq<usize> {
        self.items@.map_values(|e: (T, usize, u64)| e.1)
    }

    /// Their arrival times, in nanoseconds on the caller's clock.
    pub closed spec fn arrivals(&self) -> Seq<u64> {
        self.items@.map_values(|e: (T, usize, u64)| e.2)
    }

    /// The byte budget.
    pub closed spec fn limit(&self) -> usize {
        self.limit
    }

    /// The length of the last batch let into an idle buffer (no bytes in
    /// use), the one batch that may take the bytes in use past the budget.
    pub closed spec fn admitted_alone(&self) -> usize {
        self.alone@
    }

    /// Whether a batch of `len` bytes is let in now: the engine is shutting
    /// down (it is then dropped), the buffer holds no bytes, or the budget
    /// has room for it.
    pub open spec fn admits(&self, len: usize) -> bool {
        self.is_shut_down() || self.in_use() == 0 || self.in_use() + len <= self.limit()
    }

    /// Bytes waiting in the queue.
    pub closed spec fn queued_bytes(&self) -> usize {
        self.bytes
    }

    /// Bytes owned by queued plus in-flight work.
    pub closed spec fn in_use(&self) -> usize {
        self.bytes_in_use
    }

    /// Whether the engine is shutting down.
    pub closed spec fn is_shut_down(&self) -> bool {
        self.shutdown
    }

    /// The invariant: the queued bytes are the sum of the queued batches'
    /// lengths, and never more than the bytes in use; the bytes in use stay
    /// within the budget, or within the one batch let into an idle buffer.
    pub closed spec fn wf(&self) -> bool {
        &&& self.bytes == prefix_sum(self.lens(), self.lens().len() as int)
        &&& self.bytes <= self.bytes_in_use
        &&& self.bytes_in_use <= self.limit || self.bytes_in_use <= self.alone@
    }

    /// The buffer accounting law: in every state the queue's operations
    /// reach, the queued bytes are exactly the total length of the queued
    /// batches, and they are part of the bytes in use.
    pub proof fn lemma_accounting(&self)
        requires
            self.wf(),
        ensures
            self.queued_bytes() == prefix_sum(self.lens(), self.lens().len() as int),
            self.queued_bytes() <= self.in_use(),
    {
    }

    /// The buffer budget law: in every state the queue's operations reach,
    /// the bytes in use are within the budget, or the budget is exceeded by
    /// no more than the one batch, larger than the budget, that was let into
    /// an idle buffer; and then no other batch is let in until bytes are
    /// released.
    pub proof fn lemma_budget(&self)
        requires
            self.wf(),
        ensures
            self.in_use() <= self.limit() || (self.limit() < self.admitted_alone()
                && self.in_use() <= self.admitted_alone()),
            self.in_use() > self.limit() ==> forall|len: usize| #[trigger] self.admits(len)
                ==> self.is_shut_down(),
    {
    }

    /// An empty, running queue with byte budget `limit`.
    pub fn new(limit: usize) -> (q: Self)
        ensures
            q.wf(),
            q.items().len() == 0,
            q.queued_bytes() == 0,
            q.in_use() == 0,
            q.limit() == limit,
            !q.is_shut_down(),
    {
        FlushQueue {
            items: VecDeque::new(),
            bytes: 0,
            bytes_in_use: 0,
            limit,
            alone: Ghost(0),
            shutdown: false,
        }
    }

    /// The number of waiting batches.
    pub fn len(&self) -> (n: usize)
        ensures
            n == self.items().len(),
    {
        self.items.len()
    }

    /// Whether the engine is shutting down.
    pub fn shutting_down(&self) -> (r: bool)
        ensures
            r == self.is_shut_down(),
    {
        self.shutdown
    }

    /// Mark the engine as shutting down.
    pub fn shut_down(&mut self)
        requires
            old(self).wf(),
        ensures
            final(self).wf(),
            final(self).is_shut_down(),
            final(self).items() == old(self).items(),
            final(self).lens() == old(self).lens(),
            final(self).arrivals() == old(self).arrivals(),
            final(self).queued_bytes() == old(self).queued_bytes(),
            final(self).in_use() == old(self).in_use(),
            final(self).limit() == old(self).limit(),
    {
        self.shutdown = true;
    }

    /// Whether a producer of `len` bytes must wait for buffer space: the
    /// budget would be exceeded and other work holds bytes (a batch larger
    /// than the whole budget is let in alone). Never once shutting down.
    pub fn must_wait(&self, len: usize) -> (r: bool)
        ensures
            r == !self.admits(len),
    {
        if self.shutdown || self.bytes_in_use == 0 {
            false
        } else {
            match self.bytes_in_use.checked_add(len) {
                Some(total) => total > self.limit,
                None => true,
            }
        }
    }

    /// Queue a batch of `len` bytes that arrived at `now` (nanoseconds on
    /// the caller's clock); it must be let in (see [`Self::must_wait`]).
    /// Once shutting down it is dropped instead (`false`).
    pub fn enqueue(&mut self, item: T, len: usize, now: u64) -> (r: bool)
        requires
            old(self).wf(),
            old(self).admits(len),
            old(self).in_use() + len <= usize::MAX,
        ensures
            final(self).wf(),
            r == !old(self).is_shut_down(),
            final(self).is_shut_down() == old(self).is_shut_down(),
            final(self).limit() == old(self).limit(),
            r ==> final(self).items() == old(self).items().push(item) && final(self).lens()
                == old(self).lens().push(len) && final(self).arrivals() == old(self).arrivals().push(
                now,
            ) && final(self).queued_bytes() == old(self).queued_bytes() + len && final(self).in_use()
                == old(self).in_use() + len,
            !r ==> final(self).items() == old(self).items() && final(self).lens() == old(self).lens()
                && final(self).arrivals() == old(self).arrivals() && final(self).queued_bytes()
                == old(self).queued_bytes() && final(self).in_use() == old(self).in_use(),
    {
        if self.shutdown {
            return false;
        }
        if self.bytes_in_use == 0 {
            self.alone = Ghost(len);
        }
        self.bytes = self.bytes + len;
        self.bytes_in_use = self.bytes_in_use + len;
        let ghost before = self.items@;
        let ghost lens0 = before.map_values(|e: (T, usize, u64)| e.1);
        self.items.push_back((item, len, now));
        assert(self.items() =~= before.map_values(|e: (T, usize, u64)| e.0).push(item));
        assert(self.lens() =~= lens0.push(len));
        assert(self.arrivals() =~= before.map_values(|e: (T, usize, u64)| e.2).push(now));
        proof {
            assert(lens0.push(len).drop_last() =~= lens0);
            lemma_prefix_sum_drop_last(lens0.push(len), lens0.len() as int);
            assert(prefix_sum(lens0.push(len), lens0.len() + 1 as int) == prefix_sum(
                lens0.push(len),
                lens0.len() as int,
            ) + len);
            assert(old(self).lens() == lens0);
        }
        true
    }

    /// Whether a flush is due now: the engine is shutting down, the queued
    /// bytes or batches reached their trigger, or there is no linger.
    pub fn flush_due(&self, config: &FlushConfig, linger_is_zero: bool) -> (r: bool)
        ensures
            r == (self.is_shut_down() || self.queued_bytes() >= config.max_bytes
                || self.items().len() >= config.max_batches || linger_is_zero),
    {
        self.shutdown || self.bytes >= config.max_bytes || self.items.len() >= config.max_batches
            || linger_is_zero
    }

    /// Decide what the flush worker does next at time `now` (nanoseconds on
    /// the clock the arrivals were read from), with a linger of
    /// `linger_nanos`: with an empty queue, stop when shutting down, return
    /// when it may not wait or its wait for a batch timed out, else wait for
    /// a batch; with batches queued, take them when a flush is due or the
    /// oldest batch has waited the linger, else wait for a trigger until it
    /// has.
    pub fn take_decision(
        &self,
        config: &FlushConfig,
        wait_when_empty: bool,
        linger_nanos: u64,
        now: u64,
        last_wait: LastWait,
    ) -> (d: TakeDecision)
        ensures
            (d == TakeDecision::Shutdown) <==> (self.items().len() == 0 && self.is_shut_down()),
            self.items().len() == 0 && !self.is_shut_down() ==> d == if !wait_when_empty
                || last_wait == LastWait::BatchWaitTimedOut {
                TakeDecision::Empty
            } else {
                TakeDecision::WaitForBatch
            },
            self.items().len() > 0 ==> d == if self.is_shut_down() || self.queued_bytes()
                >= config.max_bytes || self.items().len() >= config.max_batches || linger_nanos == 0
                || waited(self.arrivals()[0], now) >= linger_nanos {
                TakeDecision::Take
            } else {
                TakeDecision::WaitForTrigger {
                    nanos: (linger_nanos - waited(self.arrivals()[0], now)) as u64,
                }
            },
            self.items().len() > 0 && waited(self.arrivals()[0], now) >= linger_nanos ==> d
                == TakeDecision::Take,
            d matches TakeDecision::WaitForTrigger { nanos } ==> self.items().len() > 0 && 0 < nanos
                && waited(self.arrivals()[0], now) + nanos == linger_nanos,
    {
        if self.items.len() == 0 {
            if self.shutdown {
                TakeDecision::Shutdown
            } else if !wait_when_empty {
                TakeDecision::Empty
            } else {
                match last_wait {
                    LastWait::BatchWaitTimedOut => TakeDecision::Empty,
                    LastWait::NoTimeout => TakeDecision::WaitForBatch,
                }
            }
        } else if self.flush_due(config, linger_nanos == 0) {
            TakeDecision::Take
        } else {
            let arrived = self.items[0].2;
            assert(arrived == self.arrivals()[0]);
            let age = now.saturating_sub(arrived);
            if age >= linger_nanos {
                TakeDecision::Take
            } else {
                TakeDecision::WaitForTrigger { nanos: linger_nanos - age }
            }
        }
    }

    /// Take the batches of one flush off the front of the queue (see
    /// [`take_count`]), with their total length.
    pub fn take_batch(&mut self, config: &FlushConfig) -> (r: (Vec<T>, usize))
        requires
            old(self).wf(),
        ensures
            final(self).wf(),
            r.1 == prefix_sum(
                old(self).lens(),
                take_count(old(self).lens(), config.max_bytes, config.max_batches) as int,
            ),
            final(self).queued_bytes() == old(self).queued_bytes() - prefix_sum(
                old(self).lens(),
                take_count(old(self).lens(), config.max_bytes, config.max_batches) as int,
            ),
            r.0@ == old(self).items().take(
                take_count(old(self).lens(), config.max_bytes, config.max_batches) as int,
            ),
            final(self).items() == old(self).items().skip(
                take_count(old(self).lens(), config.max_bytes, config.max_batches) as int,
            ),
            final(self).lens() == old(self).lens().skip(
                take_count(old(self).lens(), config.max_bytes, config.max_batches) as int,
            ),
            r.1 == if prefix_sum(
                old(self).lens(),
                take_count(old(self).lens(), config.max_bytes, config.max_batches) as int,
            ) <= usize::MAX {
                prefix_sum(
                    old(self).lens(),
                    take_count(old(self).lens(), config.max_bytes, config.max_batches) as int,
                )
            } else {
                usize::MAX as int
            },
            final(self).queued_bytes() == if old(self).queued_bytes() >= prefix_sum(
                old(self).lens(),
                take_count(old(self).lens(), config.max_bytes, config.max_batches) as int,
            ) {
                old(self).queued_bytes() - prefix_sum(
                    old(self).lens(),
                    take_count(old(self).lens(), config.max_bytes, config.max_batches) as int,
                )
            } else {
                0
            },
            final(self).arrivals() == old(self).arrivals().skip(
                take_count(old(self).lens(), config.max_bytes, config.max_batches) as int,
            ),
            final(self).in_use() == old(self).in_use(),
            final(self).limit() == old(self).limit(),
            final(self).is_shut_down() == old(self).is_shut_down(),
    {
        let ghost items0 = self.items();
        let ghost lens0 = self.lens();
        let ghost arr0 = self.arrivals();
        let ghost bytes0 = self.bytes;
        let ghost n = take_count(lens0, config.max_bytes, config.max_batches);
        let mut out: Vec<T> = Vec::new();
        let mut taken: usize = 0;
        let mut k: usize = 0;
        proof {
            lemma_take_count_bounds(lens0, config.max_bytes, config.max_batches, 0);
        }
        let total = self.items.len();
        loop
            invariant_except_break
                k < n || (k == n && n == lens0.len()),
                n == take_count_from(lens0, config.max_bytes, config.max_batches, k as nat),
            invariant
                lens0.len() == total,
                k <= n <= lens0.len(),
                lens0.len() == items0.len(),
                self.items() == items0.skip(k as int),
                self.lens() == lens0.skip(k as int),
                self.arrivals() == arr0.skip(k as int),
                arr0.len() == lens0.len(),
                self.limit == old(self).limit,
                self.alone == old(self).alone,
                out@ == items0.take(k as int),
                taken == if prefix_sum(lens0, k as int) <= usize::MAX {
                    prefix_sum(lens0, k as int)
                } else {
                    usize::MAX as int
                },
                self.bytes == if bytes0 >= prefix_sum(lens0, k as int) {
                    bytes0 - prefix_sum(lens0, k as int)
                } else {
                    0
                },
                self.bytes_in_use == old(self).bytes_in_use,
                self.shutdown == old(self).shutdown,
            ensures
                k == n,
                self.items() == items0.skip(k as int),
                self.lens() == lens0.skip(k as int),
                self.arrivals() == arr0.skip(k as int),
                arr0.len() == lens0.len(),
                self.limit == old(self).limit,
                self.alone == old(self).alone,
                out@ == items0.take(k as int),
                taken == if prefix_sum(lens0, k as int) <= usize::MAX {
                    prefix_sum(lens0, k as int)
                } else {
                    usize::MAX as int
                },
                self.bytes == if bytes0 >= prefix_sum(lens0, k as int) {
                    bytes0 - prefix_sum(lens0, k as int)
                } else {
                    0
                },
                self.bytes_in_use == old(self).bytes_in_use,
                self.shutdown == old(self).shutdown,
            decreases self.items@.len(),
        {
            let ghost q = self.items@;
            let popped = self.items.pop_front();
            let (item, len, arrived) = match popped {
                None => {
                    proof {
                        assert(items0.skip(k as int).len() == 0);
                    }
                    break;
                },
                Some(p) => p,
            };
            proof {
                assert(self.items@ =~= q.subrange(1, q.len() as int));
                assert(q.map_values(|e: (T, usize, u64)| e.0) == items0.skip(k as int));
                assert(q.map_values(|e: (T, usize, u64)| e.1) == lens0.skip(k as int));
                assert(q[0] == (item, len, arrived));
                assert(items0.skip(k as int)[0] == item);
                assert(lens0.skip(k as int)[0] == len);
                assert(q.len() > 0);
                assert(lens0.skip(k as int).len() == q.len());
                assert(k < lens0.len());
                assert(lens0[k as int] == len);
                assert forall|i: int| 0 <= i < self.items@.len() implies #[trigger] self.items@[i]
                    == q[i + 1] by {}
                assert forall|i: int| 0 <= i < self.items@.len() implies self.items()[i]
                    == items0.skip(k + 1)[i] by {
                    assert(self.items()[i] == self.items@[i].0);
                    assert(q.map_values(|e: (T, usize, u64)| e.0)[i + 1] == q[i + 1].0);
                    assert(items0.skip(k as int)[i + 1] == items0.skip(k + 1)[i]);
                }
                assert forall|i: int| 0 <= i < self.items@.len() implies self.lens()[i]
                    == lens0.skip(k + 1)[i] by {
                    assert(self.lens()[i] == self.items@[i].1);
                    assert(q.map_values(|e: (T, usize, u64)| e.1)[i + 1] == q[i + 1].1);
                    assert(lens0.skip(k as int)[i + 1] == lens0.skip(k + 1)[i]);
                }
                assert(self.items() =~= items0.skip(k + 1));
                assert(self.lens() =~= lens0.skip(k + 1));
                assert forall|i: int| 0 <= i < self.items@.len() implies self.arrivals()[i]
                    == arr0.skip(k + 1)[i] by {
                    assert(self.arrivals()[i] == self.items@[i].2);
                    assert(q.map_values(|e: (T, usize, u64)| e.2)[i + 1] == q[i + 1].2);
                    assert(arr0.skip(k as int)[i + 1] == arr0.skip(k + 1)[i]);
                }
                assert(self.arrivals() =~= arr0.skip(k + 1));
                assert(items0.take(k + 1) =~= items0.take(k as int).push(item));
            }
            self.bytes = self.bytes.saturating_sub(len);
            taken = taken.saturating_add(len);
            out.push(item);
            k = k + 1;
            if taken >= config.max_bytes || out.len() >= config.max_batches {
                proof {
                    lemma_take_count_stop(lens0, config.max_bytes, config.max_batches, (k - 1) as nat);
                }
                break;
            }
            proof {
                lemma_take_count_step(lens0, config.max_bytes, config.max_batches, (k - 1) as nat);
                lemma_take_count_bounds(lens0, config.max_bytes, config.max_batches, k as nat);
            }
        }
        proof {
            if k < n {
                assert(self.items@.len() == 0);
                assert(items0.skip(k as int).len() == 0);
            }
            lemma_prefix_sum_mono(lens0, k as int, lens0.len() as int);
            lemma_prefix_sum_skip(lens0, k as int);
            assert(self.lens().len() == lens0.len() - k);
        }
        (out, taken)
    }

    /// Release `n` bytes of finished flush work from the budget (never
    /// below the bytes still queued).
    pub fn release(&mut self, n: usize)
        requires
            old(self).wf(),
        ensures
            final(self).wf(),
            final(self).in_use() == if old(self).in_use() - n >= old(self).queued_bytes() {
                old(self).in_use() - n
            } else {
                old(self).queued_bytes() as int
            },
            final(self).items() == old(self).items(),
            final(self).lens() == old(self).lens(),
            final(self).arrivals() == old(self).arrivals(),
            final(self).queued_bytes() == old(self).queued_bytes(),
            final(self).limit() == old(self).limit(),
            final(self).is_shut_down() == old(self).is_shut_down(),
    {
        let left = self.bytes_in_use.saturating_sub(n);
        self.bytes_in_use = if left >= self.bytes {
            left
        } else {
            self.bytes
        };
    }

    /// A snapshot of the buffering envelope.
    pub fn stats(&self) -> (s: BufferStats)
        ensures
            s == (BufferStats {
                queued_bytes: self.queued_bytes(),
                bytes_in_use: self.in_use(),
                queued_batches: self.items().len() as usize,
                max_buffered_bytes: self.limit(),
            }),
    {
        BufferStats {
            queued_bytes: self.bytes,
            bytes_in_use: self.bytes_in_use,
            queued_batches: self.items.len(),
            max_buffered_bytes: self.limit,
        }
    }
}

/// The sum of all lengths is the sum of the first `k` and of the rest.
proof fn lemma_prefix_sum_skip(s: Seq<usize>, k: int)
    requires
        0 <= k <= s.len(),
    ensures
        prefix_sum(s, s.len() as int) == prefix_sum(s, k) + prefix_sum(s.skip(k), s.len() - k),
    decreases s.len(),
{
    if k == s.len() {
        assert(s.skip(k).len() == 0);
    } else {
        let t = s.drop_last();
        lemma_prefix_sum_skip(t, k);
        lemma_prefix_sum_drop_last(s, s.len() - 1);
        lemma_prefix_sum_drop_last(s, k);
        assert(s.skip(k).len() == s.len() - k);
        assert(s.skip(k).drop_last() =~= t.skip(k));
        lemma_prefix_sum_drop_last(s.skip(k), s.len() - k - 1);
        assert(s.skip(k)[s.len() - k - 1] == s[s.len() - 1]);
        assert(prefix_sum(s.skip(k), s.len() - k) == prefix_sum(s.skip(k), s.len() - k - 1) + s[s.len()
            - 1]);
    }
}

proof fn lemma_take_count_bounds(lens: Seq<usize>, max_bytes: usize, max_batches: usize, k: nat)
    requires
        k <= lens.len(),
    ensures
        k <= take_count_from(lens, max_bytes, max_batches, k) <= lens.len(),
        k < lens.len() ==> k < take_count_from(lens, max_bytes, max_batches, k),
    decreases lens.len() - k,
{
    if k < lens.len() {
        if !(prefix_sum(lens, k + 1 as int) >= max_bytes || k + 1 >= max_batches) {
            lemma_take_count_bounds(lens, max_bytes, max_batches, k + 1);
        }
    }
}

proof fn lemma_take_count_stop(lens: Seq<usize>, max_bytes: usize, max_batches: usize, k: nat)
    requires
        k < lens.len(),
        prefix_sum(lens, k + 1 as int) >= max_bytes || k + 1 >= max_batches,
    ensures
        take_count_from(lens, max_bytes, max_batches, k) == k + 1,
{
}

proof fn lemma_take_count_step(lens: Seq<usize>, max_bytes: usize, max_batches: usize, k: nat)
    requires
        k < lens.len(),
        !(prefix_sum(lens, k + 1 as int) >= max_bytes || k + 1 >= max_batches),
    ensures
        take_count_from(lens, max_bytes, max_batches, k) == take_count_from(
            lens,
            max_bytes,
            max_batches,
            k + 1,
        ),
{
}

proof fn lemma_prefix_sum_drop_last(lens: Seq<usize>, n: int)
    requires
        0 <= n < lens.len(),
    ensures
        prefix_sum(lens.drop_last(), n) == prefix_sum(lens, n),
    decreases n,
{
    if n > 0 {
        lemma_prefix_sum_drop_last(lens, n - 1);
    }
}

proof fn lemma_flatten_slices(payloads: Seq<Seq<u8>>, lens: Seq<usize>)
    requires
        lens.len() == payloads.len(),
        forall|j: int| 0 <= j < lens.len() ==> lens[j] == (#[trigger] payloads[j]).len(),
    ensures
        payloads.flatten().len() == prefix_sum(lens, lens.len() as int),
        forall|i: int|
            0 <= i < payloads.len() ==> payloads.flatten().subrange(
                prefix_sum(lens, i),
                prefix_sum(lens, i) + lens[i],
            ) == #[trigger] payloads[i],
    decreases payloads.len(),
{
    if payloads.len() == 0 {
        return;
    }
    let qs = payloads.drop_last();
    let ls = lens.drop_last();
    let x = payloads.last();
    let n = payloads.len() - 1;
    lemma_flatten_slices(qs, ls);
    assert(payloads =~= qs.push(x));
    qs.lemma_flatten_push(x);
    lemma_prefix_sum_drop_last(lens, n);
    let f = qs.flatten();
    assert(payloads.flatten() =~= f + x);
    assert forall|i: int| 0 <= i < payloads.len() implies payloads.flatten().subrange(
        prefix_sum(lens, i),
        prefix_sum(lens, i) + lens[i],
    ) == #[trigger] payloads[i] by {
        if i < n {
            lemma_prefix_sum_drop_last(lens, i);
            lemma_prefix_sum_drop_last(lens, i + 1);
            lemma_prefix_sum_mono(ls, i + 1, n);
            assert(qs[i] == payloads[i]);
            lemma_prefix_sum_mono(lens, 0, i);
            assert(prefix_sum(lens, i + 1) == prefix_sum(lens, i) + lens[i]);
            assert(prefix_sum(lens, i + 1) <= f.len());
            assert(f.subrange(prefix_sum(ls, i), prefix_sum(ls, i) + ls[i]) == qs[i]);
            assert((f + x).subrange(prefix_sum(lens, i), prefix_sum(lens, i) + lens[i]) =~= f.subrange(
                prefix_sum(lens, i),
                prefix_sum(lens, i) + lens[i],
            ));
        } else {
            assert((f + x).subrange(f.len() as int, (f.len() + x.len()) as int) =~= x);
        }
    }
}

/// What a fetch gives back of a flush: in the object a flush writes (the
/// batches' payloads laid end to end), the byte range recorded for batch `i`
/// holds exactly that batch's payload (for objects within the 32-bit
/// positions that locations record).
pub proof fn lemma_flushed_batch_reads_back(payloads: Seq<Seq<u8>>, lens: Seq<usize>, i: int)
    requires
        lens.len() == payloads.len(),
        forall|j: int| 0 <= j < lens.len() ==> lens[j] == (#[trigger] payloads[j]).len(),
        0 <= i < payloads.len(),
        prefix_sum(lens, lens.len() as int) <= u32::MAX,
    ensures
        range_of(
            payloads.flatten(),
            (prefix_sum(lens, i) as u32) as u64,
            ((prefix_sum(lens, i) as u32) + (lens[i] as u32)) as u64,
        ) == Some(payloads[i]),
{
    lemma_flatten_slices(payloads, lens);
    lemma_prefix_sum_mono(lens, i + 1, lens.len() as int);
    lemma_prefix_sum_mono(lens, 0, i);
    let a = prefix_sum(lens, i);
    assert(0 <= a <= u32::MAX);
    assert((a as u32) as int == a);
    assert((lens[i] as u32) as int == lens[i]);
    assert(prefix_sum(lens, i + 1) == prefix_sum(lens, i) + lens[i]);
    assert(payloads.flatten().subrange(prefix_sum(lens, i), prefix_sum(lens, i) + lens[i])
        == payloads[i]);
}

} // verus!
