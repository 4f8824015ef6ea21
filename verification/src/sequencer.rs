//! The sequencing seam: offset assignment, the offset→location index, and
//! retention. The engine owns storage and buffering; a `Sequencer` owns
//! offsets. [`SequencerIndex`] is the index the bundled sequencers share.
use crate::collections::{StrMap, strings_view};
use crate::error::ObjectLogError;
use crate::text::{decimal, push_decimal_padded, push_str, str_eq, zero_pad};
use vstd::prelude::*;

verus! {

/// Opaque, engine-visible identifier for an independent offset stream (one
/// dense, monotonic offset space).
#[derive(Debug, PartialEq, Eq, Hash, PartialOrd, Ord)]
pub struct PartitionKey(pub String);

impl Clone for PartitionKey {
    fn clone(&self) -> (r: Self)
        ensures
            r.0@ == self.0@,
    {
        PartitionKey(self.0.clone())
    }
}

impl PartitionKey {
    /// Borrow the key as a string slice.
    pub fn as_str(&self) -> (r: &str)
        ensures
            r@ == self.0@,
    {
        self.0.as_str()
    }
}

/// The value of a batch location.
pub struct LocationSpec {
    /// Key of the object holding the batch.
    pub object_id: Seq<char>,
    /// Byte offset of the batch within the object.
    pub byte_start: u32,
    /// Byte length of the batch.
    pub byte_len: u32,
}

/// Where a batch's bytes live inside its object. Authored by the engine (it
/// owns object layout); the sequencer stores it and hands it back from
/// lookups.
#[derive(Debug, PartialEq, Eq)]
pub struct BatchLocation {
    /// Key of the object holding the batch.
    pub object_id: String,
    /// Byte offset of the batch within the object.
    pub byte_start: u32,
    /// Byte length of the batch.
    pub byte_len: u32,
}

impl View for BatchLocation {
    type V = LocationSpec;

    open spec fn view(&self) -> LocationSpec {
        LocationSpec {
            object_id: self.object_id@,
            byte_start: self.byte_start,
            byte_len: self.byte_len,
        }
    }
}

impl Clone for BatchLocation {
    fn clone(&self) -> (r: Self)
        ensures
            r@ == self@,
    {
        BatchLocation {
            object_id: self.object_id.clone(),
            byte_start: self.byte_start,
            byte_len: self.byte_len,
        }
    }
}

/// One batch presented to a commit. The engine fills `partition`,
/// `record_count` and `location`; `meta` is forwarded uninterpreted.
pub struct CommitBatch<'a, M> {
    /// The offset stream this batch belongs to.
    pub partition: PartitionKey,
    /// Number of records in the batch (offsets advance by this).
    pub record_count: i32,
    /// Where the batch lives in its (already durable) object.
    pub location: BatchLocation,
    /// Sequencer-private metadata, opaque to the engine.
    pub meta: &'a M,
}

/// The value of a commit batch: what the index reads of it.
pub struct BatchSpec {
    /// The offset stream.
    pub partition: Seq<char>,
    /// Number of records.
    pub record_count: i32,
    /// Where the bytes live.
    pub location: LocationSpec,
}

impl<'a, M> View for CommitBatch<'a, M> {
    type V = BatchSpec;

    open spec fn view(&self) -> BatchSpec {
        BatchSpec {
            partition: self.partition.0@,
            record_count: self.record_count,
            location: self.location@,
        }
    }
}

/// The values of a list of commit batches.
pub open spec fn batches_view<'a, M>(bs: Seq<CommitBatch<'a, M>>) -> Seq<BatchSpec> {
    bs.map_values(|b: CommitBatch<'a, M>| b@)
}

/// Per-batch result of a commit.
#[derive(Clone, Copy, Debug, PartialEq, Eq)]
pub enum CommitOutcome {
    /// A fresh, contiguous offset range was assigned starting at `base_offset`.
    Assigned {
        /// First offset assigned to the batch.
        base_offset: i64,
        /// Number of records committed.
        record_count: i32,
    },
    /// A retried batch was recognized as already committed; the base offset
    /// it was first assigned is returned.
    Duplicate {
        /// The originally assigned first offset.
        base_offset: i64,
    },
}

/// The value of an index entry.
pub struct EntrySpec {
    /// Where the batch's bytes live.
    pub location: LocationSpec,
    /// First offset in the batch.
    pub base_offset: i64,
    /// Number of records in the batch.
    pub record_count: i32,
}

/// An index entry resolving an offset range to its bytes.
#[derive(Debug, PartialEq, Eq)]
pub struct IndexEntry {
    /// Where the batch's bytes live.
    pub location: BatchLocation,
    /// First offset in the batch.
    pub base_offset: i64,
    /// Number of records in the batch.
    pub record_count: i32,
}

impl View for IndexEntry {
    type V = EntrySpec;

    open spec fn view(&self) -> EntrySpec {
        EntrySpec {
            location: self.location@,
            base_offset: self.base_offset,
            record_count: self.record_count,
        }
    }
}

impl Clone for IndexEntry {
    fn clone(&self) -> (r: Self)
        ensures
            r@ == self@,
    {
        IndexEntry {
            location: self.location.clone(),
            base_offset: self.base_offset,
            record_count: self.record_count,
        }
    }
}

/// The linearization point: assigns offsets to durably stored batches and
/// owns the offset→location index.
///
/// `commit` is atomic across the whole slice (all batches of one object
/// commit together or not at all); the engine presents the batches of any
/// one partition in arrival order and never splits a partition across
/// concurrent commits.
pub trait Sequencer: Send + Sync {
    /// Sequencer-private per-batch metadata, forwarded uninterpreted.
    type Meta: Send + Sync;

    /// Assign offsets to a just-written object's batches and persist the
    /// index; one outcome per input batch, in order. On `Err`, nothing is
    /// committed.
    fn commit(&self, batches: &[CommitBatch<'_, Self::Meta>]) -> Result<
        Vec<CommitOutcome>,
        ObjectLogError,
    >;

    /// The ordered index entries covering `fetch_offset` onward.
    fn lookup(&self, partition: &PartitionKey, fetch_offset: i64) -> Result<
        Vec<IndexEntry>,
        ObjectLogError,
    >;

    /// The next offset to be assigned.
    fn high_watermark(&self, partition: &PartitionKey) -> Result<i64, ObjectLogError>;

    /// The first readable offset.
    fn log_start_offset(&self, partition: &PartitionKey) -> Result<i64, ObjectLogError>;

    /// Drop index entries below `offset` and return the object ids that now
    /// have no live reference from any partition.
    fn truncate_before(&self, partition: &PartitionKey, offset: i64) -> Result<
        Vec<String>,
        ObjectLogError,
    >;
}

/// The end offset (exclusive) of an entry.
pub open spec fn entry_end(e: EntrySpec) -> int {
    e.base_offset + e.record_count
}

/// Whether an entry's end offset is a 64-bit offset.
pub open spec fn end_fits(e: EntrySpec) -> bool {
    i64::MIN <= entry_end(e) <= i64::MAX
}

/// The state of one partition in the index.
pub struct PartSpec {
    /// The next offset to be assigned.
    pub next_offset: i64,
    /// The first readable offset.
    pub log_start: i64,
    /// The index entries, in commit order.
    pub entries: Seq<EntrySpec>,
}

/// The index: partition key to partition state.
pub type IndexMap = Map<Seq<char>, PartSpec>;

/// A partition that has never been written.
pub open spec fn empty_part() -> PartSpec {
    PartSpec { next_offset: 0, log_start: 0, entries: Seq::empty() }
}

/// The state of partition `k`, a never-written one if absent.
pub open spec fn part_of(m: IndexMap, k: Seq<char>) -> PartSpec {
    if m.contains_key(k) {
        m[k]
    } else {
        empty_part()
    }
}

/// Record entry `e` under partition `k`: it is appended, and the next offset
/// rises to its end if that is higher.
pub open spec fn apply_entry(m: IndexMap, k: Seq<char>, e: EntrySpec) -> IndexMap {
    let p = part_of(m, k);
    m.insert(
        k,
        PartSpec {
            next_offset: if entry_end(e) > p.next_offset {
                entry_end(e) as i64
            } else {
                p.next_offset
            },
            log_start: p.log_start,
            entries: p.entries.push(e),
        },
    )
}

/// Record a list of (partition, entry) pairs, in order.
pub open spec fn apply_all(m: IndexMap, planned: Seq<(Seq<char>, EntrySpec)>) -> IndexMap
    decreases planned.len(),
{
    if planned.len() == 0 {
        m
    } else {
        apply_entry(apply_all(m, planned.drop_last()), planned.last().0, planned.last().1)
    }
}

/// One persisted change of the index: a commit's entries, or a truncation
/// of a partition below an offset.
pub enum IndexRecord {
    /// The (partition, entry) pairs a commit recorded, in order.
    Commit(Vec<(PartitionKey, IndexEntry)>),
    /// A truncation of a partition below an offset.
    Truncate(PartitionKey, i64),
}

/// The value of an index record.
pub enum RecordView {
    /// A commit's (partition, entry) pairs.
    Commit(Seq<(Seq<char>, EntrySpec)>),
    /// A truncation of a partition below an offset.
    Truncate(Seq<char>, i64),
}

/// The value of an index record.
pub open spec fn record_view(r: IndexRecord) -> RecordView {
    match r {
        IndexRecord::Commit(p) => RecordView::Commit(plan_view(p@)),
        IndexRecord::Truncate(k, o) => RecordView::Truncate(k.0@, o),
    }
}

/// The index after truncating partition `k` below `offset` (a partition
/// never written is left alone).
pub open spec fn truncate_index(m: IndexMap, k: Seq<char>, offset: i64) -> IndexMap {
    if m.contains_key(k) {
        m.insert(k, truncated_part(m[k], offset))
    } else {
        m
    }
}

/// The index after one record.
pub open spec fn apply_record(m: IndexMap, r: RecordView) -> IndexMap {
    match r {
        RecordView::Commit(p) => apply_all(m, p),
        RecordView::Truncate(k, offset) => truncate_index(m, k, offset),
    }
}

/// Replay a list of records, in order.
pub open spec fn replay(m: IndexMap, records: Seq<RecordView>) -> IndexMap
    decreases records.len(),
{
    if records.len() == 0 {
        m
    } else {
        apply_record(replay(m, records.drop_last()), records.last())
    }
}

/// The next offset of partition `k` once the batches `bs` are planned on top
/// of `m`: the partition's next offset plus the record counts of its batches.
pub open spec fn local_next(m: IndexMap, bs: Seq<BatchSpec>, k: Seq<char>) -> int
    decreases bs.len(),
{
    if bs.len() == 0 {
        part_of(m, k).next_offset as int
    } else if bs.last().partition == k {
        local_next(m, bs.drop_last(), k) + bs.last().record_count
    } else {
        local_next(m, bs.drop_last(), k)
    }
}

/// The base offset assigned to batch `i`.
pub open spec fn planned_base(m: IndexMap, bs: Seq<BatchSpec>, i: int) -> int {
    local_next(m, bs.take(i), bs[i].partition)
}

/// Whether every planned batch ends at a 64-bit offset.
pub open spec fn plan_fits(m: IndexMap, bs: Seq<BatchSpec>) -> bool {
    forall|i: int|
        0 <= i < bs.len() ==> i64::MIN <= #[trigger] planned_base(m, bs, i) + bs[i].record_count
            <= i64::MAX
}

/// The entry planned for batch `i`.
pub open spec fn planned_entry(m: IndexMap, bs: Seq<BatchSpec>, i: int) -> (Seq<char>, EntrySpec) {
    (
        bs[i].partition,
        EntrySpec {
            location: bs[i].location,
            base_offset: planned_base(m, bs, i) as i64,
            record_count: bs[i].record_count,
        },
    )
}

/// The entries planned for `bs`, in order.
pub open spec fn plan_of(m: IndexMap, bs: Seq<BatchSpec>) -> Seq<(Seq<char>, EntrySpec)> {
    Seq::new(bs.len(), |i: int| planned_entry(m, bs, i))
}

/// The outcomes reported for `bs`, in order.
pub open spec fn outcomes_of(m: IndexMap, bs: Seq<BatchSpec>) -> Seq<CommitOutcome> {
    Seq::new(
        bs.len(),
        |i: int|
            CommitOutcome::Assigned {
                base_offset: planned_base(m, bs, i) as i64,
                record_count: bs[i].record_count,
            },
    )
}

/// The value of a list of (partition, entry) pairs.
pub open spec fn plan_view(p: Seq<(PartitionKey, IndexEntry)>) -> Seq<(Seq<char>, EntrySpec)> {
    p.map_values(|e: (PartitionKey, IndexEntry)| (e.0.0@, e.1@))
}

/// Whether every entry of a plan ends at a 64-bit offset.
pub open spec fn plan_ends_fit(p: Seq<(Seq<char>, EntrySpec)>) -> bool {
    forall|i: int| 0 <= i < p.len() ==> end_fits(#[trigger] p[i].1)
}

/// Whether a record's entries all end at 64-bit offsets.
pub open spec fn record_fits(r: RecordView) -> bool {
    match r {
        RecordView::Commit(p) => plan_ends_fit(p),
        RecordView::Truncate(..) => true,
    }
}

/// Whether every entry of every record ends at a 64-bit offset.
pub open spec fn records_fit(rs: Seq<RecordView>) -> bool {
    forall|j: int| 0 <= j < rs.len() ==> record_fits(#[trigger] rs[j])
}

/// The value of a list of records.
pub open spec fn records_view(rs: Seq<IndexRecord>) -> Seq<RecordView> {
    rs.map_values(|r: IndexRecord| record_view(r))
}

/// The value of a list of index entries.
pub open spec fn entries_view(es: Seq<IndexEntry>) -> Seq<EntrySpec> {
    es.map_values(|e: IndexEntry| e@)
}

/// Whether an entry ends after `offset`, i.e. still covers offsets at or
/// after it.
pub open spec fn ends_after(offset: i64) -> spec_fn(EntrySpec) -> bool {
    |e: EntrySpec| entry_end(e) > offset
}

/// Whether an entry ends at or before `offset`.
pub open spec fn ends_by(offset: i64) -> spec_fn(EntrySpec) -> bool {
    |e: EntrySpec| entry_end(e) <= offset
}

/// Partition `p` after dropping its entries below `offset`: the log start
/// rises to `offset`, but never past the next offset.
pub open spec fn truncated_part(p: PartSpec, offset: i64) -> PartSpec {
    PartSpec {
        next_offset: p.next_offset,
        log_start: if offset > p.log_start {
            if offset < p.next_offset {
                offset
            } else {
                p.next_offset
            }
        } else {
            p.log_start
        },
        entries: p.entries.filter(ends_after(offset)),
    }
}

/// The retention law on log starts: truncating below an offset at or
/// under the log start leaves the log start where it was; otherwise it
/// moves up to the offset, but never past the next offset; either way it
/// never moves down and the next offset stays. So re-applying retention
/// changes nothing.
pub proof fn lemma_truncation_log_start(p: PartSpec, offset: i64)
    requires
        p.log_start <= p.next_offset,
    ensures
        offset <= p.log_start ==> truncated_part(p, offset).log_start == p.log_start,
        p.log_start <= truncated_part(p, offset).log_start <= p.next_offset,
        truncated_part(p, offset).next_offset == p.next_offset,
        offset > p.log_start && offset <= p.next_offset ==> truncated_part(p, offset).log_start
            == offset,
        offset > p.next_offset ==> truncated_part(p, offset).log_start == p.next_offset,
        truncated_part(truncated_part(p, offset), offset).log_start == truncated_part(p, offset).log_start,
{
}

/// The object ids of the entries a truncation drops, in entry order.
pub open spec fn dropped_ids(p: PartSpec, offset: i64) -> Seq<Seq<char>> {
    p.entries.filter(ends_by(offset)).map_values(|e: EntrySpec| e.location.object_id)
}

/// Whether some entry of some partition lives in object `oid`.
pub open spec fn referenced(m: IndexMap, oid: Seq<char>) -> bool {
    exists|k: Seq<char>, i: int|
        #![trigger m[k].entries[i]]
        m.contains_key(k) && 0 <= i < m[k].entries.len() && m[k].entries[i].location.object_id
            == oid
}

/// `s` with later repeats removed, first occurrences kept in order.
pub open spec fn dedup(s: Seq<Seq<char>>) -> Seq<Seq<char>>
    decreases s.len(),
{
    if s.len() == 0 {
        s
    } else {
        let d = dedup(s.drop_last());
        if d.contains(s.last()) {
            d
        } else {
            d.push(s.last())
        }
    }
}

/// Whether every entry of a partition ends at a 64-bit offset, and its log
/// start is not past its next offset.
pub open spec fn part_wf(p: PartSpec) -> bool {
    &&& forall|i: int| 0 <= i < p.entries.len() ==> end_fits(#[trigger] p.entries[i])
    &&& p.log_start <= p.next_offset
}

/// Whether every entry of the index ends at a 64-bit offset.
pub open spec fn index_wf(m: IndexMap) -> bool {
    forall|k: Seq<char>| #[trigger] m.contains_key(k) ==> part_wf(m[k])
}

struct Part {
    next_offset: i64,
    log_start: i64,
    entries: Vec<IndexEntry>,
}

impl View for Part {
    type V = PartSpec;

    closed spec fn view(&self) -> PartSpec {
        PartSpec {
            next_offset: self.next_offset,
            log_start: self.log_start,
            entries: entries_view(self.entries@),
        }
    }
}

/// The offset index shared by the bundled sequencers: per partition the next
/// offset, the log start and the entries, plus a count of commits.
pub struct SequencerIndex {
    parts: StrMap<Part>,
    counter: u64,
}

impl View for SequencerIndex {
    type V = IndexMap;

    closed spec fn view(&self) -> IndexMap {
        self.parts.map().map_values(|p: Part| p@)
    }
}

/// Whether `s` contains `x`.
fn contains_string(s: &Vec<String>, x: &str) -> (r: bool)
    ensures
        r == strings_view(s@).contains(x@),
{
    let mut i: usize = 0;
    while i < s.len()
        invariant
            i <= s@.len(),
            forall|j: int| 0 <= j < i ==> strings_view(s@)[j] != x@,
        decreases s@.len() - i,
    {
        if str_eq(s[i].as_str(), x) {
            assert(strings_view(s@)[i as int] == x@);
            return true;
        }
        i = i + 1;
    }
    false
}

impl SequencerIndex {
    /// The number of commits recorded so far.
    pub closed spec fn counter(&self) -> u64 {
        self.counter
    }

    /// Internal consistency: the partitions are kept sorted by key and every
    /// entry ends at a 64-bit offset.
    pub closed spec fn wf(&self) -> bool {
        self.parts.wf() && index_wf(self@)
    }

    /// The number of commits recorded so far.
    pub fn commit_count(&self) -> (n: u64)
        ensures
            n == self.counter(),
    {
        self.counter
    }

    /// An empty index.
    pub fn new() -> (s: Self)
        ensures
            s.wf(),
            s@ == IndexMap::empty(),
            s.counter() == 0,
    {
        let s = SequencerIndex { parts: StrMap::new(), counter: 0 };
        assert(s@ =~= IndexMap::empty());
        s
    }

    /// The next offset to be assigned in `partition` (0 if never written).
    pub fn high_watermark(&self, partition: &PartitionKey) -> (r: i64)
        requires
            self.wf(),
        ensures
            r == part_of(self@, partition.0@).next_offset,
    {
        match self.parts.get(partition.as_str()) {
            Some(p) => p.next_offset,
            None => 0,
        }
    }

    /// The first readable offset of `partition` (0 if never written).
    pub fn log_start_offset(&self, partition: &PartitionKey) -> (r: i64)
        requires
            self.wf(),
        ensures
            r == part_of(self@, partition.0@).log_start,
    {
        match self.parts.get(partition.as_str()) {
            Some(p) => p.log_start,
            None => 0,
        }
    }

    /// Record one entry under `key`.
    fn apply_one(&mut self, key: PartitionKey, entry: IndexEntry)
        requires
            old(self).wf(),
            end_fits(entry@),
        ensures
            final(self).wf(),
            final(self)@ == apply_entry(old(self)@, key.0@, entry@),
            final(self).counter() == old(self).counter(),
    {
        let ghost m = self@;
        let ghost k = key.0@;
        let ghost e = entry@;
        let end: i64 = entry.base_offset + entry.record_count as i64;
        let mut part = match self.parts.remove(key.as_str()) {
            Some(p) => p,
            None => {
                let p = Part { next_offset: 0, log_start: 0, entries: Vec::new() };
                assert(entries_view(p.entries@) =~= Seq::<EntrySpec>::empty());
                p
            },
        };
        assert(part@ == part_of(m, k));
        if end > part.next_offset {
            part.next_offset = end;
        }
        let ghost before = part.entries@;
        part.entries.push(entry);
        assert(entries_view(part.entries@) =~= entries_view(before).push(e));
        self.parts.insert(key.0, part);
        assert(self@ =~= apply_entry(m, k, e));
        assert(index_wf(self@)) by {
            assert forall|kk: Seq<char>| #[trigger] self@.contains_key(kk) implies part_wf(
                self@[kk],
            ) by {
                if kk != k {
                    assert(m.contains_key(kk));
                }
            }
        }
    }

    /// Record a list of (partition, entry) pairs, in order.
    fn apply_entries(&mut self, entries: &Vec<(PartitionKey, IndexEntry)>)
        requires
            old(self).wf(),
            plan_ends_fit(plan_view(entries@)),
        ensures
            final(self).wf(),
            final(self)@ == apply_all(old(self)@, plan_view(entries@)),
            final(self).counter() == old(self).counter(),
    {
        let ghost m = self@;
        let ghost pv = plan_view(entries@);
        let mut i: usize = 0;
        while i < entries.len()
            invariant
                self.wf(),
                pv == plan_view(entries@),
                plan_ends_fit(pv),
                i <= entries@.len(),
                self@ == apply_all(m, pv.take(i as int)),
                self.counter() == old(self).counter(),
            decreases entries@.len() - i,
        {
            let key = entries[i].0.clone();
            let entry = entries[i].1.clone();
            assert(pv[i as int] == (key.0@, entry@));
            assert(end_fits(pv[i as int].1));
            self.apply_one(key, entry);
            proof {
                assert(pv.take(i + 1).drop_last() =~= pv.take(i as int));
            }
            i = i + 1;
        }
        assert(pv.take(i as int) =~= pv);
    }

    /// Whether every entry of `entries` ends at a 64-bit offset.
    pub fn entries_fit(entries: &Vec<(PartitionKey, IndexEntry)>) -> (r: bool)
        ensures
            r == plan_ends_fit(plan_view(entries@)),
    {
        let ghost pv = plan_view(entries@);
        let mut i: usize = 0;
        while i < entries.len()
            invariant
                pv == plan_view(entries@),
                i <= entries@.len(),
                forall|j: int| 0 <= j < i ==> end_fits(#[trigger] pv[j].1),
            decreases entries@.len() - i,
        {
            let e = &entries[i].1;
            assert(pv[i as int].1 == e@);
            if e.base_offset.checked_add(e.record_count as i64).is_none() {
                assert(!end_fits(pv[i as int].1));
                return false;
            }
            i = i + 1;
        }
        true
    }

    /// Rebuild an index by replaying records (commits and truncations) in
    /// order; the record count is the number of records. `None` when some
    /// entry's end offset does not fit in 64 bits.
    pub fn recover(records: &Vec<IndexRecord>) -> (r: Option<Self>)
        ensures
            r is None <==> !records_fit(records_view(records@)),
            r matches Some(s) ==> s.wf() && s@ == replay(IndexMap::empty(), records_view(records@))
                && s.counter() == records@.len(),
    {
        let ghost rs = records_view(records@);
        let mut s = SequencerIndex::new();
        let mut j: usize = 0;
        while j < records.len()
            invariant
                s.wf(),
                rs == records_view(records@),
                j <= records@.len(),
                forall|jj: int| 0 <= jj < j ==> record_fits(#[trigger] rs[jj]),
                s@ == replay(IndexMap::empty(), rs.take(j as int)),
                s.counter() == 0,
            decreases records@.len() - j,
        {
            assert(rs[j as int] == record_view(records@[j as int]));
            proof {
                assert(rs.take(j + 1).drop_last() =~= rs.take(j as int));
            }
            match &records[j] {
                IndexRecord::Commit(entries) => {
                    if !Self::entries_fit(entries) {
                        return None;
                    }
                    s.apply_entries(entries);
                },
                IndexRecord::Truncate(k, offset) => {
                    let _ = s.truncate_before(k, *offset);
                },
            }
            j = j + 1;
        }
        assert(rs.take(j as int) =~= rs);
        s.counter = records.len() as u64;
        Some(s)
    }

    /// Plan a commit of `batches` without touching the index: the entries to
    /// record and the outcome of each batch. Each batch of a partition is
    /// assigned the offsets right after the previous one of that partition
    /// (or after the partition's next offset for its first). `None` when an
    /// assigned end offset would not fit in 64 bits.
    pub fn plan_commit<M>(&self, batches: &[CommitBatch<'_, M>]) -> (r: Option<
        (Vec<(PartitionKey, IndexEntry)>, Vec<CommitOutcome>),
    >)
        requires
            self.wf(),
        ensures
            r is None <==> !plan_fits(self@, batches_view(batches@)),
            r matches Some((p, o)) ==> plan_view(p@) == plan_of(self@, batches_view(batches@))
                && o@ == outcomes_of(self@, batches_view(batches@)) && plan_ends_fit(
                plan_view(p@),
            ),
    {
        let ghost m = self@;
        let ghost bs = batches_view(batches@);
        let mut local: StrMap<i64> = StrMap::new();
        let mut planned: Vec<(PartitionKey, IndexEntry)> = Vec::new();
        let mut outcomes: Vec<CommitOutcome> = Vec::new();
        let mut i: usize = 0;
        while i < batches.len()
            invariant
                self.wf(),
                m == self@,
                bs == batches_view(batches@),
                local.wf(),
                i <= batches@.len(),
                forall|k: Seq<char>|
                    #[trigger] local_next(m, bs.take(i as int), k) == (if local.map().contains_key(
                        k,
                    ) {
                        local.map()[k] as int
                    } else {
                        part_of(m, k).next_offset as int
                    }),
                planned@.len() == i,
                outcomes@.len() == i,
                forall|j: int| 0 <= j < i ==> #[trigger] plan_view(planned@)[j] == planned_entry(m, bs, j),
                forall|j: int| 0 <= j < i ==> #[trigger] outcomes@[j] == outcomes_of(m, bs)[j],
                forall|j: int|
                    0 <= j < i ==> i64::MIN <= #[trigger] planned_base(m, bs, j) + bs[j].record_count
                        <= i64::MAX,
                forall|j: int| 0 <= j < i ==> end_fits(#[trigger] planned_entry(m, bs, j).1),
            decreases batches@.len() - i,
        {
            let cb = &batches[i];
            let ghost p = cb.partition.0@;
            assert(bs[i as int] == cb@);
            let base: i64 = match local.get(cb.partition.as_str()) {
                Some(v) => *v,
                None => self.high_watermark(&cb.partition),
            };
            assert(base == local_next(m, bs.take(i as int), p));
            assert(base == planned_base(m, bs, i as int));
            assert(planned_entry(m, bs, i as int).1.base_offset == base);
            let end = match base.checked_add(cb.record_count as i64) {
                Some(e) => e,
                None => {
                    assert(!(i64::MIN <= planned_base(m, bs, i as int) + bs[i as int].record_count
                        <= i64::MAX));
                    return None;
                },
            };
            let ghost old_local = local.map();
            local.insert(cb.partition.0.clone(), end);
            let entry = IndexEntry {
                location: cb.location.clone(),
                base_offset: base,
                record_count: cb.record_count,
            };
            let ghost before_p = planned@;
            planned.push((cb.partition.clone(), entry));
            outcomes.push(CommitOutcome::Assigned { base_offset: base, record_count: cb.record_count });
            proof {
                let bs1 = bs.take(i + 1);
                assert(bs1.drop_last() =~= bs.take(i as int));
                assert(bs1.last() == bs[i as int]);
                assert forall|k: Seq<char>| #[trigger]
                    local_next(m, bs.take(i + 1), k) == (if local.map().contains_key(k) {
                        local.map()[k] as int
                    } else {
                        part_of(m, k).next_offset as int
                    }) by {
                    assert(local_next(m, bs.take(i as int), k) == (if old_local.contains_key(k) {
                        old_local[k] as int
                    } else {
                        part_of(m, k).next_offset as int
                    }));
                }
                assert forall|j: int| 0 <= j < i + 1 implies #[trigger] plan_view(planned@)[j]
                    == planned_entry(m, bs, j) by {
                    if j < i {
                        assert(plan_view(planned@)[j] == plan_view(before_p)[j]);
                    }
                }
            }
            i = i + 1;
        }
        assert(plan_view(planned@) =~= plan_of(m, bs));
        assert(outcomes@ =~= outcomes_of(m, bs));
        assert(plan_ends_fit(plan_view(planned@))) by {
            assert forall|j: int| 0 <= j < plan_view(planned@).len() implies end_fits(
                #[trigger] plan_view(planned@)[j].1,
            ) by {
                assert(plan_view(planned@)[j] == planned_entry(m, bs, j));
                assert(end_fits(planned_entry(m, bs, j).1));
            }
        }
        Some((planned, outcomes))
    }

    /// The key of the manifest object for the next commit:
    /// `{prefix}{counter + 1:020}`.
    pub fn manifest_key(&self, prefix: &str) -> (r: String)
        requires
            self.counter() < u64::MAX,
        ensures
            r@ == prefix@ + zero_pad(decimal((self.counter() + 1) as nat), 20),
    {
        let mut key = String::new();
        push_str(&mut key, prefix);
        push_decimal_padded(&mut key, self.counter + 1, 20);
        key
    }

    /// Make a planned commit visible: record its entries and count the
    /// commit.
    pub fn apply_commit(&mut self, plan: &Vec<(PartitionKey, IndexEntry)>)
        requires
            old(self).wf(),
            old(self).counter() < u64::MAX,
            plan_ends_fit(plan_view(plan@)),
        ensures
            final(self).wf(),
            final(self)@ == apply_all(old(self)@, plan_view(plan@)),
            final(self).counter() == old(self).counter() + 1,
    {
        self.apply_entries(plan);
        self.counter = self.counter + 1;
    }

    /// The entries of `partition` that end after `fetch_offset`, i.e. those
    /// covering `fetch_offset` onward, in order.
    pub fn lookup(&self, partition: &PartitionKey, fetch_offset: i64) -> (r: Vec<IndexEntry>)
        requires
            self.wf(),
        ensures
            entries_view(r@) == part_of(self@, partition.0@).entries.filter(
                ends_after(fetch_offset),
            ),
    {
        let ghost k = partition.0@;
        match self.parts.get(partition.as_str()) {
            None => {
                assert(part_of(self@, k).entries.filter(ends_after(fetch_offset)) =~= Seq::<
                    EntrySpec,
                >::empty()) by {
                    reveal(Seq::filter);
                }
                Vec::new()
            },
            Some(p) => {
                assert(p@ == part_of(self@, k));
                assert(part_wf(p@));
                let ghost es = entries_view(p.entries@);
                let ghost pred = ends_after(fetch_offset);
                let mut out: Vec<IndexEntry> = Vec::new();
                let mut i: usize = 0;
                while i < p.entries.len()
                    invariant
                        es == entries_view(p.entries@),
                        part_wf(p@),
                        pred == ends_after(fetch_offset),
                        i <= p.entries@.len(),
                        entries_view(out@) == es.take(i as int).filter(pred),
                    decreases p.entries@.len() - i,
                {
                    let e = &p.entries[i];
                    assert(es[i as int] == e@);
                    assert(p@.entries[i as int] == es[i as int]);
                    assert(end_fits(es[i as int]));
                    proof {
                        assert(es.take(i + 1) =~= es.take(i as int).push(es[i as int]));
                        es.take(i as int).lemma_filter_push(es[i as int], pred);
                    }
                    if e.base_offset + e.record_count as i64 > fetch_offset {
                        let ghost before = out@;
                        out.push(e.clone());
                        assert(entries_view(out@) =~= entries_view(before).push(es[i as int]));
                    }
                    i = i + 1;
                }
                assert(es.take(i as int) =~= es);
                out
            },
        }
    }

    /// Whether some entry of some partition lives in object `oid`.
    fn is_referenced(&self, oid: &str) -> (r: bool)
        requires
            self.parts.wf(),
        ensures
            r == referenced(self@, oid@),
    {
        let ghost m = self@;
        let ghost ks = self.parts.keys();
        let n = self.parts.len();
        let mut j: usize = 0;
        while j < n
            invariant
                self.parts.wf(),
                m == self@,
                ks == self.parts.keys(),
                n == self.parts.entries().len(),
                j <= n,
                forall|jj: int, i: int|
                    #![trigger self.parts.entries()[jj].1@.entries[i]]
                    0 <= jj < j && 0 <= i < self.parts.entries()[jj].1@.entries.len()
                        ==> self.parts.entries()[jj].1@.entries[i].location.object_id != oid@,
            decreases n - j,
        {
            let part = self.parts.value_at(j);
            let mut i: usize = 0;
            while i < part.entries.len()
                invariant
                    self.parts.wf(),
                    m == self@,
                    ks == self.parts.keys(),
                    n == self.parts.entries().len(),
                    j < n,
                    part == self.parts.entries()[j as int].1,
                    i <= part.entries@.len(),
                    forall|ii: int|
                        0 <= ii < i ==> (#[trigger] part@.entries[ii]).location.object_id != oid@,
                decreases part.entries@.len() - i,
            {
                assert(part@.entries[i as int] == part.entries@[i as int]@);
                if str_eq(part.entries[i].location.object_id.as_str(), oid) {
                    proof {
                        crate::collections::lemma_index_of_sorted(ks, j as int);
                        let k = ks[j as int];
                        assert(m.contains_key(k));
                        assert(m[k] == part@);
                        assert(m[k].entries[i as int].location.object_id == oid@);
                    }
                    return true;
                }
                i = i + 1;
            }
            j = j + 1;
        }
        proof {
            if referenced(m, oid@) {
                let (k, i) = choose|k: Seq<char>, i: int|
                    #![trigger m[k].entries[i]]
                    m.contains_key(k) && 0 <= i < m[k].entries.len()
                        && m[k].entries[i].location.object_id == oid@;
                assert(ks.contains(k));
                let jj = ks.index_of(k);
                assert(0 <= jj < n && ks[jj] == k);
                assert(self.parts.entries()[jj].1@.entries[i] == m[k].entries[i]);
            }
        }
        false
    }

    /// Whether `partition` has ever been written.
    pub fn has_partition(&self, partition: &PartitionKey) -> (r: bool)
        requires
            self.wf(),
        ensures
            r == self@.contains_key(partition.0@),
    {
        self.parts.get(partition.as_str()).is_some()
    }

    /// Truncate as [`SequencerIndex::truncate_before`] does, counting the
    /// change as one more persisted record.
    pub fn apply_truncation(&mut self, partition: &PartitionKey, offset: i64) -> (r: Vec<String>)
        requires
            old(self).wf(),
            old(self).counter() < u64::MAX,
        ensures
            final(self).wf(),
            final(self)@ == truncate_index(old(self)@, partition.0@, offset),
            final(self).counter() == old(self).counter() + 1,
            old(self)@.contains_key(partition.0@) ==> strings_view(r@) == dedup(
                dropped_ids(old(self)@[partition.0@], offset).filter(
                    |o: Seq<char>| !referenced(final(self)@, o),
                ),
            ),
            !old(self)@.contains_key(partition.0@) ==> r@.len() == 0,
    {
        let dead = self.truncate_before(partition, offset);
        self.counter = self.counter + 1;
        dead
    }

    /// Drop the entries of `partition` that end at or before `offset`, raise
    /// its log start to `offset` (never past its next offset), and return the
    /// ids of the dropped entries' objects that no entry of any partition
    /// references any more, each once, in the order first dropped.
    pub fn truncate_before(&mut self, partition: &PartitionKey, offset: i64) -> (r: Vec<String>)
        requires
            old(self).wf(),
        ensures
            final(self).wf(),
            final(self).counter() == old(self).counter(),
            !old(self)@.contains_key(partition.0@) ==> final(self)@ == old(self)@ && r@.len() == 0,
            old(self)@.contains_key(partition.0@) ==> final(self)@ == old(self)@.insert(
                partition.0@,
                truncated_part(old(self)@[partition.0@], offset),
            ) && strings_view(r@) == dedup(
                dropped_ids(old(self)@[partition.0@], offset).filter(
                    |o: Seq<char>| !referenced(final(self)@, o),
                ),
            ),
            forall|j: int| 0 <= j < r@.len() ==> !referenced(final(self)@, #[trigger] r@[j]@),
            strings_view(r@).no_duplicates(),
            forall|k: Seq<char>|
                #[trigger] part_of(final(self)@, k).next_offset == part_of(old(self)@, k).next_offset,
            forall|k: Seq<char>|
                #[trigger] part_of(final(self)@, k).log_start >= part_of(old(self)@, k).log_start,
            old(self)@.contains_key(partition.0@) ==> forall|o: Seq<char>|
                #[trigger] dropped_ids(old(self)@[partition.0@], offset).contains(o) && !referenced(
                    final(self)@,
                    o,
                ) ==> strings_view(r@).contains(o),
            offset <= part_of(old(self)@, partition.0@).log_start ==> part_of(
                final(self)@,
                partition.0@,
            ).log_start == part_of(old(self)@, partition.0@).log_start,
            part_of(final(self)@, partition.0@).log_start <= part_of(
                final(self)@,
                partition.0@,
            ).next_offset,
    {
        let ghost m = self@;
        let ghost k = partition.0@;
        let mut part = match self.parts.remove(partition.as_str()) {
            None => {
                assert(self@ =~= m);
                return Vec::new();
            },
            Some(p) => p,
        };
        assert(m.contains_key(k));
        assert(part@ == m[k]);
        assert(part_wf(part@));
        let ghost es = entries_view(part.entries@);
        let ghost keep = ends_after(offset);
        let ghost drop = ends_by(offset);
        let mut dropped: Vec<String> = Vec::new();
        let mut kept: Vec<IndexEntry> = Vec::new();
        let mut i: usize = 0;
        while i < part.entries.len()
            invariant
                es == entries_view(part.entries@),
                part_wf(part@),
                keep == ends_after(offset),
                drop == ends_by(offset),
                i <= part.entries@.len(),
                entries_view(kept@) == es.take(i as int).filter(keep),
                strings_view(dropped@) == es.take(i as int).filter(drop).map_values(
                    |e: EntrySpec| e.location.object_id,
                ),
                forall|j: int| 0 <= j < kept@.len() ==> end_fits(#[trigger] kept@[j]@),
            decreases part.entries@.len() - i,
        {
            let e = &part.entries[i];
            assert(es[i as int] == e@);
            assert(part@.entries[i as int] == es[i as int]);
            assert(end_fits(es[i as int]));
            proof {
                assert(es.take(i + 1) =~= es.take(i as int).push(es[i as int]));
                es.take(i as int).lemma_filter_push(es[i as int], keep);
                es.take(i as int).lemma_filter_push(es[i as int], drop);
            }
            if e.base_offset + e.record_count as i64 <= offset {
                let ghost before = dropped@;
                dropped.push(e.location.object_id.clone());
                assert(strings_view(dropped@) =~= strings_view(before).push(
                    es[i as int].location.object_id,
                ));
                assert(es.take(i + 1).filter(drop).map_values(|e: EntrySpec| e.location.object_id)
                    =~= es.take(i as int).filter(drop).map_values(
                    |e: EntrySpec| e.location.object_id,
                ).push(es[i as int].location.object_id));
            } else {
                let ghost before = kept@;
                kept.push(e.clone());
                assert(entries_view(kept@) =~= entries_view(before).push(es[i as int]));
            }
            i = i + 1;
        }
        assert(es.take(i as int) =~= es);
        part.entries = kept;
        if offset > part.log_start {
            part.log_start = if offset < part.next_offset {
                offset
            } else {
                part.next_offset
            };
        }
        assert(part@ == truncated_part(m[k], offset));
        self.parts.insert(partition.0.clone(), part);
        assert(self@ =~= m.insert(k, truncated_part(m[k], offset)));
        assert(index_wf(self@)) by {
            assert forall|kk: Seq<char>| #[trigger] self@.contains_key(kk) implies part_wf(
                self@[kk],
            ) by {
                if kk != k {
                    assert(m.contains_key(kk));
                }
            }
        }
        let ghost after = self@;
        let ghost ds = dropped_ids(m[k], offset);
        let ghost live = |o: Seq<char>| !referenced(after, o);
        assert(strings_view(dropped@) == ds);
        let mut dead: Vec<String> = Vec::new();
        let mut j: usize = 0;
        while j < dropped.len()
            invariant
                self.wf(),
                self@ == after,
                ds == strings_view(dropped@),
                live == (|o: Seq<char>| !referenced(after, o)),
                j <= dropped@.len(),
                strings_view(dead@) == dedup(ds.take(j as int).filter(live)),
            decreases dropped@.len() - j,
        {
            let oid = dropped[j].as_str();
            assert(ds[j as int] == oid@);
            proof {
                assert(ds.take(j + 1) =~= ds.take(j as int).push(ds[j as int]));
                ds.take(j as int).lemma_filter_push(ds[j as int], live);
            }
            if !self.is_referenced(oid) {
                let ghost f = ds.take(j as int).filter(live);
                assert(ds.take(j + 1).filter(live) == f.push(oid@));
                assert(f.push(oid@).drop_last() =~= f);
                if !contains_string(&dead, oid) {
                    let ghost before = dead@;
                    dead.push(dropped[j].clone());
                    assert(strings_view(dead@) =~= strings_view(before).push(oid@));
                }
            }
            j = j + 1;
        }
        assert(ds.take(j as int) =~= ds);
        proof {
            lemma_dedup(ds.filter(live));
            lemma_truncation_log_start(m[k], offset);
            assert forall|o: Seq<char>| #[trigger] ds.contains(o) && !referenced(after, o) implies strings_view(
                dead@,
            ).contains(o) by {
                let x = ds.index_of(o);
                ds.lemma_filter_contains(live, x);
            }
            assert forall|jj: int| 0 <= jj < dead@.len() implies !referenced(
                after,
                #[trigger] dead@[jj]@,
            ) by {
                assert(strings_view(dead@)[jj] == dead@[jj]@);
                assert(dedup(ds.filter(live)).contains(dead@[jj]@));
                assert(ds.filter(live).contains(dead@[jj]@));
                let x = ds.filter(live).index_of(dead@[jj]@);
                ds.lemma_filter_pred(live, x);
            }
        }
        dead
    }
}

/// `dedup` keeps exactly the ids of its input, each once: an id is in the
/// result if and only if it is in the input, and nothing is kept twice.
pub proof fn lemma_dedup(s: Seq<Seq<char>>)
    ensures
        dedup(s).no_duplicates(),
        forall|x: Seq<char>| dedup(s).contains(x) ==> s.contains(x),
        forall|x: Seq<char>| s.contains(x) ==> dedup(s).contains(x),
    decreases s.len(),
{
    if s.len() > 0 {
        lemma_dedup(s.drop_last());
        let d = dedup(s.drop_last());
        assert forall|x: Seq<char>| s.contains(x) implies dedup(s).contains(x) by {
            let j = s.index_of(x);
            if j < s.len() - 1 {
                assert(s.drop_last()[j] == x);
                assert(s.drop_last().contains(x));
                assert(d.contains(x));
                if !d.contains(s.last()) {
                    let i = d.index_of(x);
                    assert(d.push(s.last())[i] == x);
                }
            } else {
                assert(x == s.last());
                if !d.contains(s.last()) {
                    assert(d.push(s.last())[d.len() as int] == x);
                }
            }
        }
        assert forall|x: Seq<char>| dedup(s).contains(x) implies s.contains(x) by {
            if d.contains(x) {
                assert(s.drop_last().contains(x));
                let j = s.drop_last().index_of(x);
                assert(s.drop_last()[j] == x);
                assert(s[j] == x);
            } else {
                assert(!d.contains(s.last()));
                assert(dedup(s) == d.push(s.last()));
                let j = dedup(s).index_of(x);
                assert(x == s.last());
                assert(s[s.len() - 1] == x);
            }
        }
    }
}


/// The next offset planned for `k` is unaffected by batches of other
/// partitions: it stays as it was after batch `i` while only other
/// partitions follow.
proof fn lemma_local_next_skips(m: IndexMap, bs: Seq<BatchSpec>, k: Seq<char>, i: int, j: int)
    requires
        0 <= i <= j <= bs.len(),
        forall|l: int| i <= l < j ==> (#[trigger] bs[l]).partition != k,
    ensures
        local_next(m, bs.take(j), k) == local_next(m, bs.take(i), k),
    decreases j - i,
{
    if j > i {
        assert(bs.take(j).drop_last() =~= bs.take(j - 1));
        assert(bs.take(j).last() == bs[j - 1]);
        lemma_local_next_skips(m, bs, k, i, j - 1);
    }
}

/// Offsets within one commit are dense per partition: a batch starts right
/// where the previous batch of its partition ends.
pub proof fn lemma_commit_offsets_dense(m: IndexMap, bs: Seq<BatchSpec>, i: int, j: int)
    requires
        0 <= i < j < bs.len(),
        bs[i].partition == bs[j].partition,
        forall|l: int| i < l < j ==> (#[trigger] bs[l]).partition != bs[j].partition,
    ensures
        planned_base(m, bs, j) == planned_base(m, bs, i) + bs[i].record_count,
{
    let k = bs[j].partition;
    lemma_local_next_skips(m, bs, k, i + 1, j);
    assert(bs.take(i + 1).drop_last() =~= bs.take(i));
    assert(bs.take(i + 1).last() == bs[i]);
}

/// The first batch of a partition in a commit starts at the partition's
/// high watermark.
pub proof fn lemma_commit_starts_at_high_watermark(m: IndexMap, bs: Seq<BatchSpec>, j: int)
    requires
        0 <= j < bs.len(),
        forall|l: int| 0 <= l < j ==> (#[trigger] bs[l]).partition != bs[j].partition,
    ensures
        planned_base(m, bs, j) == part_of(m, bs[j].partition).next_offset,
{
    lemma_local_next_skips(m, bs, bs[j].partition, 0, j);
    assert(bs.take(0) =~= Seq::<BatchSpec>::empty());
}

/// After a commit of batches with positive record counts, each partition's
/// high watermark has advanced by exactly the records committed to it.
pub proof fn lemma_commit_advances_high_watermark(m: IndexMap, bs: Seq<BatchSpec>, k: Seq<char>)
    requires
        plan_fits(m, bs),
        forall|i: int| 0 <= i < bs.len() ==> (#[trigger] bs[i]).record_count > 0,
    ensures
        part_of(apply_all(m, plan_of(m, bs)), k).next_offset == local_next(m, bs, k),
{
    lemma_apply_plan_prefix(m, bs, bs.len() as int);
    assert(plan_of(m, bs).take(bs.len() as int) =~= plan_of(m, bs));
    assert(bs.take(bs.len() as int) =~= bs);
}

proof fn lemma_apply_plan_prefix(m: IndexMap, bs: Seq<BatchSpec>, n: int)
    requires
        plan_fits(m, bs),
        forall|i: int| 0 <= i < bs.len() ==> (#[trigger] bs[i]).record_count > 0,
        0 <= n <= bs.len(),
    ensures
        forall|k: Seq<char>|
            #[trigger] part_of(apply_all(m, plan_of(m, bs).take(n)), k).next_offset == local_next(
                m,
                bs.take(n),
                k,
            ),
    decreases n,
{
    let ps = plan_of(m, bs);
    if n == 0 {
        assert(ps.take(0) =~= Seq::<(Seq<char>, EntrySpec)>::empty());
        assert(bs.take(0) =~= Seq::<BatchSpec>::empty());
    } else {
        lemma_apply_plan_prefix(m, bs, n - 1);
        assert(ps.take(n).drop_last() =~= ps.take(n - 1));
        assert(bs.take(n).drop_last() =~= bs.take(n - 1));
        assert(bs.take(n).last() == bs[n - 1]);
        let prev = apply_all(m, ps.take(n - 1));
        let p = bs[n - 1].partition;
        assert(ps.take(n).last() == planned_entry(m, bs, n - 1));
        assert(part_of(prev, p).next_offset == local_next(m, bs.take(n - 1), p));
        assert(i64::MIN <= planned_base(m, bs, n - 1) + bs[n - 1].record_count <= i64::MAX);
        assert forall|k: Seq<char>|
            #[trigger] part_of(apply_all(m, ps.take(n)), k).next_offset == local_next(
                m,
                bs.take(n),
                k,
            ) by {
            assert(part_of(prev, k).next_offset == local_next(m, bs.take(n - 1), k));
        }
    }
}

/// An index rebuilt from its records is the index those changes built:
/// replaying one more record applies exactly that commit's entries, or that
/// truncation (so a truncation survives a restart just as a commit does).
pub proof fn lemma_replay_extends(m: IndexMap, records: Seq<RecordView>, record: RecordView)
    ensures
        replay(m, records.push(record)) == apply_record(replay(m, records), record),
        record matches RecordView::Commit(p) ==> replay(m, records.push(record)) == apply_all(
            replay(m, records),
            p,
        ),
        record matches RecordView::Truncate(k, offset) ==> replay(m, records.push(record))
            == truncate_index(replay(m, records), k, offset),
{
    assert(records.push(record).drop_last() =~= records);
}

/// The recovery law over whole runs: an index that starts empty and goes
/// through the changes `records` (each commit or truncation is applied as
/// [`SequencerIndex::apply_commit`] and [`SequencerIndex::apply_truncation`]
/// apply it, each counting one more record) is, at every point, what
/// replaying the records persisted so far rebuilds, with the same record
/// count; so an index reopened by [`SequencerIndex::recover`] has the same
/// high watermarks, log starts and entries, and names its next record after
/// the last one persisted.
pub proof fn lemma_recovery_reproduces(indexes: Seq<IndexMap>, counters: Seq<int>, records: Seq<RecordView>)
    requires
        indexes.len() == records.len() + 1,
        counters.len() == records.len() + 1,
        indexes[0] == IndexMap::empty(),
        counters[0] == 0,
        forall|i: int|
            0 <= i < records.len() ==> #[trigger] indexes[i + 1] == apply_record(indexes[i], records[i])
                && counters[i + 1] == counters[i] + 1,
    ensures
        forall|k: int|
            0 <= k <= records.len() ==> #[trigger] replay(IndexMap::empty(), records.take(k)) == indexes[k]
                && counters[k] == k,
        replay(IndexMap::empty(), records) == indexes[records.len() as int],
        counters[records.len() as int] == records.len(),
{
    assert forall|k: int| 0 <= k <= records.len() implies #[trigger] replay(
        IndexMap::empty(),
        records.take(k),
    ) == indexes[k] && counters[k] == k by {
        lemma_recovery_prefix(indexes, counters, records, k);
    }
    assert(records.take(records.len() as int) =~= records);
}

proof fn lemma_recovery_prefix(indexes: Seq<IndexMap>, counters: Seq<int>, records: Seq<RecordView>, k: int)
    requires
        indexes.len() == records.len() + 1,
        counters.len() == records.len() + 1,
        indexes[0] == IndexMap::empty(),
        counters[0] == 0,
        forall|i: int|
            0 <= i < records.len() ==> #[trigger] indexes[i + 1] == apply_record(indexes[i], records[i])
                && counters[i + 1] == counters[i] + 1,
        0 <= k <= records.len(),
    ensures
        replay(IndexMap::empty(), records.take(k)) == indexes[k],
        counters[k] == k,
    decreases k,
{
    if k == 0 {
        assert(records.take(0).len() == 0);
    } else {
        let j = k - 1;
        lemma_recovery_prefix(indexes, counters, records, j);
        assert(indexes[j + 1] == apply_record(indexes[j], records[j]));
        assert(records.take(k).drop_last() =~= records.take(j));
        assert(records.take(k).last() == records[j]);
    }
}

/// The entries of partition `k` in a list of (partition, entry) pairs, in
/// order.
pub open spec fn entries_for(p: Seq<(Seq<char>, EntrySpec)>, k: Seq<char>) -> Seq<EntrySpec>
    decreases p.len(),
{
    if p.len() == 0 {
        Seq::empty()
    } else if p.last().0 == k {
        entries_for(p.drop_last(), k).push(p.last().1)
    } else {
        entries_for(p.drop_last(), k)
    }
}

/// Recording a commit (or replaying its record) appends exactly its entries
/// to each partition, in order, and leaves the log starts alone; a partition
/// the commit does not touch is left as it was.
pub proof fn lemma_commit_records_entries(m: IndexMap, p: Seq<(Seq<char>, EntrySpec)>, k: Seq<char>)
    ensures
        part_of(apply_all(m, p), k).entries == part_of(m, k).entries + entries_for(p, k),
        part_of(apply_all(m, p), k).log_start == part_of(m, k).log_start,
        entries_for(p, k).len() == 0 ==> part_of(apply_all(m, p), k) == part_of(m, k),
    decreases p.len(),
{
    if p.len() == 0 {
        assert(part_of(m, k).entries + Seq::<EntrySpec>::empty() =~= part_of(m, k).entries);
    } else {
        lemma_commit_records_entries(m, p.drop_last(), k);
        let prev = apply_all(m, p.drop_last());
        if p.last().0 == k {
            assert(part_of(prev, k).entries.push(p.last().1) =~= part_of(m, k).entries
                + entries_for(p.drop_last(), k).push(p.last().1));
        }
    }
}

} // verus!
