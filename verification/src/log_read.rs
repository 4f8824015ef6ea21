//! What a whole read of a partition returns. A read walks the manifest's
//! entries in order with a [`ReadCursor`](crate::object_backend::ReadCursor):
//! it skips entries that end before the requested offset, stops once enough
//! records are held, and otherwise fetches and absorbs each entry's segment.
//! [`read_walk`] is that walk over the objects the store holds; the laws
//! here say what it returns for a log that appends built, and that it reads
//! nothing but the objects the manifest references.
use crate::digest::sha256_digest;
use crate::model::{AppendBatch, RecordSpec, valid_topic_name};
use crate::object_backend::{
    ManifestEntrySpec, ManifestSpec, ReadFault, absorb_outcome, batch_segment,
    lemma_partition_keys_valid, manifest_after_write, partition_dir_text, segment_key_text,
    spans_entry, stored_records, take_records,
};
use crate::segment::{
    SegmentSpec, decode_spec, lemma_segment_round_trip, offsets_contiguous, segment_bytes,
    segment_fits, segment_payload,
};
use crate::store::valid_object_key;
use crate::text::{decimal, hex, lemma_zero_pad_decimal_injective, zero_pad};
use vstd::prelude::*;

verus! {

/// The object stored under `key` among `objects`, if any.
pub open spec fn stored_object(objects: Map<Seq<char>, Seq<u8>>, key: Seq<char>) -> Option<Seq<u8>> {
    if objects.contains_key(key) {
        Some(objects[key])
    } else {
        None
    }
}

/// A read of `topic`/`partition` from offset `start` for at most `max`
/// records, walking `entries` over the stored `objects`, holding `out` and
/// expecting offset `next`: what the read loop computes with
/// [`ReadCursor::step`](crate::object_backend::ReadCursor::step) and
/// [`ReadCursor::absorb`](crate::object_backend::ReadCursor::absorb). Returns
/// the records held and the next offset.
pub open spec fn read_walk(
    start: u64,
    max: nat,
    entries: Seq<ManifestEntrySpec>,
    objects: Map<Seq<char>, Seq<u8>>,
    topic: Seq<char>,
    partition: u32,
    out: Seq<RecordSpec>,
    next: u64,
) -> Result<(Seq<RecordSpec>, u64), ReadFault>
    decreases entries.len(),
{
    if entries.len() == 0 {
        Ok((out, next))
    } else {
        let e = entries[0];
        if e.last_offset < start {
            read_walk(start, max, entries.drop_first(), objects, topic, partition, out, next)
        } else if out.len() >= max {
            Ok((out, next))
        } else if !valid_object_key(e.segment_key) {
            Err(ReadFault::InvalidKey)
        } else {
            match absorb_outcome(
                start,
                max,
                out,
                next,
                e,
                topic,
                partition,
                stored_object(objects, e.segment_key),
            ) {
                Ok((o, n)) => read_walk(start, max, entries.drop_first(), objects, topic, partition, o, n),
                Err(f) => Err(f),
            }
        }
    }
}

/// The isolation law: a read depends on no object but those the manifest's
/// entries reference. Two stores that agree on those objects give the same
/// read; so an object written by an append whose manifest update then
/// failed (or was fenced before writing anything) leaves reads unchanged.
pub proof fn lemma_read_sees_only_referenced(
    start: u64,
    max: nat,
    entries: Seq<ManifestEntrySpec>,
    objects: Map<Seq<char>, Seq<u8>>,
    others: Map<Seq<char>, Seq<u8>>,
    topic: Seq<char>,
    partition: u32,
    out: Seq<RecordSpec>,
    next: u64,
)
    requires
        forall|i: int|
            0 <= i < entries.len() ==> stored_object(objects, #[trigger] entries[i].segment_key)
                == stored_object(others, entries[i].segment_key),
    ensures
        read_walk(start, max, entries, objects, topic, partition, out, next) == read_walk(
            start,
            max,
            entries,
            others,
            topic,
            partition,
            out,
            next,
        ),
    decreases entries.len(),
{
    if entries.len() > 0 {
        let rest = entries.drop_first();
        assert forall|i: int| 0 <= i < rest.len() implies stored_object(objects, #[trigger] rest[i].segment_key)
            == stored_object(others, rest[i].segment_key) by {
            assert(rest[i] == entries[i + 1]);
        }
        assert(stored_object(objects, entries[0].segment_key) == stored_object(others, entries[0].segment_key));
        match absorb_outcome(
            start,
            max,
            out,
            next,
            entries[0],
            topic,
            partition,
            stored_object(objects, entries[0].segment_key),
        ) {
            Ok((o, n)) => {
                lemma_read_sees_only_referenced(start, max, rest, objects, others, topic, partition, o, n);
            },
            Err(_) => {},
        }
        lemma_read_sees_only_referenced(start, max, rest, objects, others, topic, partition, out, next);
    }
}

/// The larger of two offsets.
pub open spec fn max_offset(a: int, b: int) -> int {
    if a >= b {
        a
    } else {
        b
    }
}

/// The smaller of two counts.
pub open spec fn min_count(a: int, b: int) -> int {
    if a <= b {
        a
    } else {
        b
    }
}

/// Taking from a segment whose records carry the offsets `b`, `b + 1`, ...
/// when the read expects `next = max(b, start)`: the records from `next` on
/// are taken until `max` are held or the segment ends.
proof fn lemma_take_from_contiguous(
    recs: Seq<RecordSpec>,
    b: int,
    start: u64,
    max: nat,
    out: Seq<RecordSpec>,
    next: u64,
)
    requires
        forall|j: int| 0 <= j < recs.len() ==> (#[trigger] recs[j]).offset == b + j,
        b + recs.len() <= u64::MAX,
        next == max_offset(b, start as int),
        next <= b + recs.len(),
        out.len() <= max,
    ensures
        take_records(recs, start, max, out, next) == Ok::<(Seq<RecordSpec>, u64), ReadFault>(
            (
                out + recs.subrange(
                    next - b,
                    next - b + min_count(max - out.len(), b + recs.len() - next),
                ),
                (next + min_count(max - out.len(), b + recs.len() - next)) as u64,
            ),
        ),
    decreases recs.len(),
{
    let t = min_count(max - out.len(), b + recs.len() - next);
    if recs.len() == 0 {
        assert(out + recs.subrange(next - b, next - b + t) =~= out);
    } else {
        let r = recs[0];
        let rest = recs.drop_first();
        assert forall|j: int| 0 <= j < rest.len() implies (#[trigger] rest[j]).offset == (b + 1) + j by {
            assert(rest[j] == recs[j + 1]);
        }
        if r.offset < start {
            lemma_take_from_contiguous(rest, b + 1, start, max, out, next);
            assert(rest.subrange(next - (b + 1), next - (b + 1) + t) =~= recs.subrange(next - b, next - b + t));
        } else if out.len() == max {
            assert(out + recs.subrange(next - b, next - b) =~= out);
        } else {
            assert(r.offset == next);
            lemma_take_from_contiguous(rest, b + 1, start, max, out.push(r), (next + 1) as u64);
            let t1 = min_count(max - (out.len() + 1), (b + 1) + rest.len() - (next + 1));
            assert(t1 == t - 1);
            assert(out.push(r) + rest.subrange((next + 1) - (b + 1), (next + 1) - (b + 1) + t1) =~= out
                + recs.subrange(next - b, next - b + t));
        }
    }
}

/// The segment stored for entry `e`, decoded (meaningful when it decodes).
pub open spec fn entry_segment(e: ManifestEntrySpec, objects: Map<Seq<char>, Seq<u8>>) -> SegmentSpec {
    decode_spec(objects[e.segment_key])->Ok_0
}

/// Whether entry `e` of `topic`/`partition` is backed by its segment: the
/// key is valid, the object is stored with the entry's checksum, and it
/// decodes to a segment of the partition spanning exactly the entry's
/// offsets, densely.
pub open spec fn entry_sound(
    e: ManifestEntrySpec,
    objects: Map<Seq<char>, Seq<u8>>,
    topic: Seq<char>,
    partition: u32,
) -> bool {
    &&& valid_object_key(e.segment_key)
    &&& objects.contains_key(e.segment_key)
    &&& hex(sha256_digest(objects[e.segment_key])) == e.checksum
    &&& decode_spec(objects[e.segment_key]) is Ok
    &&& entry_segment(e, objects).topic == topic
    &&& entry_segment(e, objects).partition == partition
    &&& spans_entry(entry_segment(e, objects), e)
    &&& offsets_contiguous(e.base_offset, entry_segment(e, objects).records)
    &&& e.last_offset < u64::MAX
}

/// Whether `entries` are a sound log: each entry backed by its segment, and
/// each starting right after the one before.
pub open spec fn log_sound(
    entries: Seq<ManifestEntrySpec>,
    objects: Map<Seq<char>, Seq<u8>>,
    topic: Seq<char>,
    partition: u32,
) -> bool {
    &&& forall|i: int| 0 <= i < entries.len() ==> entry_sound(#[trigger] entries[i], objects, topic, partition)
    &&& forall|i: int|
        0 <= i < entries.len() - 1 ==> #[trigger] entries[i + 1].base_offset == entries[i].last_offset + 1
}

/// The records of a log: those of its segments, in entry order.
pub open spec fn log_records(entries: Seq<ManifestEntrySpec>, objects: Map<Seq<char>, Seq<u8>>) -> Seq<
    RecordSpec,
>
    decreases entries.len(),
{
    if entries.len() == 0 {
        Seq::empty()
    } else {
        entry_segment(entries[0], objects).records + log_records(entries.drop_first(), objects)
    }
}

/// Whether `entries` over `objects` are the log that appends to
/// `topic`/`partition` build, next offset `next_offset`: a sound log from
/// offset 0 up to `next_offset`, each segment under the key of its base
/// offset.
pub open spec fn log_built(
    entries: Seq<ManifestEntrySpec>,
    objects: Map<Seq<char>, Seq<u8>>,
    topic: Seq<char>,
    partition: u32,
    next_offset: u64,
) -> bool {
    &&& log_sound(entries, objects, topic, partition)
    &&& entries.len() == 0 ==> next_offset == 0
    &&& entries.len() > 0 ==> entries[0].base_offset == 0 && entries.last().last_offset + 1
        == next_offset
    &&& forall|i: int|
        0 <= i < entries.len() ==> (#[trigger] entries[i]).segment_key == segment_key_text(
            topic,
            partition,
            entries[i].base_offset,
        )
}

proof fn lemma_log_sound_rest(
    entries: Seq<ManifestEntrySpec>,
    objects: Map<Seq<char>, Seq<u8>>,
    topic: Seq<char>,
    partition: u32,
)
    requires
        log_sound(entries, objects, topic, partition),
        entries.len() > 0,
    ensures
        log_sound(entries.drop_first(), objects, topic, partition),
        entry_sound(entries[0], objects, topic, partition),
        entries.len() > 1 ==> entries.drop_first()[0].base_offset == entries[0].last_offset + 1,
{
    let rest = entries.drop_first();
    assert forall|i: int| 0 <= i < rest.len() implies entry_sound(#[trigger] rest[i], objects, topic, partition) by {
        assert(rest[i] == entries[i + 1]);
    }
    assert forall|i: int| 0 <= i < rest.len() - 1 implies #[trigger] rest[i + 1].base_offset == rest[i].last_offset
        + 1 by {
        assert(rest[i] == entries[i + 1]);
        assert(rest[i + 1] == entries[(i + 1) + 1]);
    }
    assert(entry_sound(entries[0], objects, topic, partition));
    if entries.len() > 1 {
        assert(entries[0int + 1].base_offset == entries[0int].last_offset + 1);
    }
}

/// The shape of a sound log: its records carry the offsets from the first
/// entry's base on, densely, up to the last entry's last offset.
proof fn lemma_log_shape(
    entries: Seq<ManifestEntrySpec>,
    objects: Map<Seq<char>, Seq<u8>>,
    topic: Seq<char>,
    partition: u32,
)
    requires
        log_sound(entries, objects, topic, partition),
        entries.len() > 0,
    ensures
        log_records(entries, objects).len() == entries.last().last_offset + 1 - entries[0].base_offset,
        forall|j: int|
            0 <= j < log_records(entries, objects).len() ==> (#[trigger] log_records(entries, objects)[j]).offset
                == entries[0].base_offset + j,
        forall|i: int|
            0 <= i < entries.len() ==> (#[trigger] entries[i]).last_offset <= entries.last().last_offset
                && entries[0].base_offset <= entries[i].base_offset,
    decreases entries.len(),
{
    lemma_log_sound_rest(entries, objects, topic, partition);
    let e = entries[0];
    let s = entry_segment(e, objects);
    let rest = entries.drop_first();
    let l = log_records(entries, objects);
    assert(l == s.records + log_records(rest, objects));
    if entries.len() == 1 {
        assert(rest.len() == 0);
        assert(log_records(rest, objects) =~= Seq::<RecordSpec>::empty());
        assert(l =~= s.records);
    } else {
        lemma_log_shape(rest, objects, topic, partition);
        assert(rest.last() == entries.last());
        assert forall|j: int| 0 <= j < l.len() implies (#[trigger] l[j]).offset == e.base_offset + j by {
            if j >= s.records.len() {
                assert(l[j] == log_records(rest, objects)[j - s.records.len()]);
            }
        }
        assert forall|i: int| 0 <= i < entries.len() implies (#[trigger] entries[i]).last_offset
            <= entries.last().last_offset && entries[0].base_offset <= entries[i].base_offset by {
            if i > 0 {
                assert(entries[i] == rest[i - 1]);
                assert(rest[0].base_offset <= rest[i - 1].base_offset);
            }
        }
    }
}

/// What a read of a sound log from `next` (with `out` held) returns: the
/// log's records from `next` on, until `max` are held or the log ends.
pub open spec fn walk_result(
    max: nat,
    entries: Seq<ManifestEntrySpec>,
    objects: Map<Seq<char>, Seq<u8>>,
    out: Seq<RecordSpec>,
    next: u64,
) -> (Seq<RecordSpec>, u64) {
    if entries.len() == 0 {
        (out, next)
    } else {
        let l = log_records(entries, objects);
        let b = entries[0].base_offset as int;
        if b + l.len() > next {
            let t = min_count(max - out.len(), b + l.len() - next);
            (out + l.subrange(next - b, next - b + t), (next + t) as u64)
        } else {
            (out, next)
        }
    }
}

#[verifier::spinoff_prover]
#[verifier::rlimit(80)]
proof fn lemma_walk_log(
    start: u64,
    max: nat,
    entries: Seq<ManifestEntrySpec>,
    objects: Map<Seq<char>, Seq<u8>>,
    topic: Seq<char>,
    partition: u32,
    out: Seq<RecordSpec>,
    next: u64,
)
    requires
        log_sound(entries, objects, topic, partition),
        out.len() <= max,
        entries.len() > 0 ==> next == max_offset(entries[0].base_offset as int, start as int),
    ensures
        read_walk(start, max, entries, objects, topic, partition, out, next) == Ok::<
            (Seq<RecordSpec>, u64),
            ReadFault,
        >(walk_result(max, entries, objects, out, next)),
    decreases entries.len(),
{
    if entries.len() == 0 {
        return;
    }
    lemma_log_sound_rest(entries, objects, topic, partition);
    lemma_log_shape(entries, objects, topic, partition);
    let e = entries[0];
    let s = entry_segment(e, objects);
    let c = s.records.len() as int;
    let b = e.base_offset as int;
    let rest = entries.drop_first();
    let lrest = log_records(rest, objects);
    let l = log_records(entries, objects);
    assert(l == s.records + lrest);
    if rest.len() > 0 {
        lemma_log_shape(rest, objects, topic, partition);
        assert(rest.last() == entries.last());
    } else {
        assert(lrest =~= Seq::<RecordSpec>::empty());
    }
    if e.last_offset < start {
        assert(next == start);
        lemma_walk_log(start, max, rest, objects, topic, partition, out, next);
        if rest.len() > 0 {
            let b1 = rest[0].base_offset as int;
            assert(b1 == b + c);
            if b + l.len() > next {
                let t = min_count(max - out.len(), b + l.len() - next);
                assert(l.subrange(next - b, next - b + t) =~= lrest.subrange(next - b1, next - b1 + t));
            }
        }
    } else if out.len() >= max {
        if b + l.len() > next {
            assert(out + l.subrange(next - b, next - b) =~= out);
        }
    } else {
        let bytes = objects[e.segment_key];
        assert(stored_object(objects, e.segment_key) == Some(bytes));
        assert(decode_spec(bytes) == Ok::<SegmentSpec, crate::segment::DecodeFault>(s));
        assert forall|j: int| 0 <= j < s.records.len() implies (#[trigger] s.records[j]).offset == b + j by {}
        lemma_take_from_contiguous(s.records, b, start, max, out, next);
        let t0 = min_count(max - out.len(), b + c - next);
        let out1 = out + s.records.subrange(next - b, next - b + t0);
        let next1 = (next + t0) as u64;
        assert(absorb_outcome(start, max, out, next, e, topic, partition, Some(bytes)) == Ok::<
            (Seq<RecordSpec>, u64),
            ReadFault,
        >((out1, next1)));
        assert(out1.len() == out.len() + t0);
        if t0 < b + c - next {
            if rest.len() > 0 {
                assert(rest[0].last_offset >= rest[0].base_offset);
                assert(read_walk(start, max, rest, objects, topic, partition, out1, next1) == Ok::<
                    (Seq<RecordSpec>, u64),
                    ReadFault,
                >((out1, next1)));
            }
            assert(l.subrange(next - b, next - b + t0) =~= s.records.subrange(next - b, next - b + t0));
        } else {
            lemma_walk_log(start, max, rest, objects, topic, partition, out1, next1);
            if rest.len() > 0 {
                let b1 = rest[0].base_offset as int;
                assert(b1 == b + c);
                assert(lrest.len() > 0);
                let t1 = min_count(max - out1.len(), lrest.len() as int);
                let t = min_count(max - out.len(), b + l.len() - next);
                assert(t == t0 + t1);
                assert(out1 + lrest.subrange(next1 - b1, next1 - b1 + t1) =~= out + l.subrange(
                    next - b,
                    next - b + t,
                ));
            } else {
                assert(l =~= s.records);
            }
        }
    }
}

/// The whole-read law: a read of a log that appends built, from any offset
/// `start`, returns the log's records from `start` on, in order, as many as
/// there are up to `max` records, and resumes right after them; the log's
/// records carry the offsets `0, 1, ...` up to its next offset.
pub proof fn lemma_whole_read(
    start: u64,
    max: nat,
    entries: Seq<ManifestEntrySpec>,
    objects: Map<Seq<char>, Seq<u8>>,
    topic: Seq<char>,
    partition: u32,
    next_offset: u64,
)
    requires
        log_built(entries, objects, topic, partition, next_offset),
    ensures
        log_records(entries, objects).len() == next_offset,
        forall|j: int|
            0 <= j < next_offset ==> (#[trigger] log_records(entries, objects)[j]).offset == j,
        next_offset <= start ==> read_walk(start, max, entries, objects, topic, partition, Seq::empty(), start)
            == Ok::<(Seq<RecordSpec>, u64), ReadFault>((Seq::empty(), start)),
        next_offset > start ==> read_walk(start, max, entries, objects, topic, partition, Seq::empty(), start)
            == Ok::<(Seq<RecordSpec>, u64), ReadFault>(
            (
                log_records(entries, objects).subrange(
                    start as int,
                    start + min_count(max as int, next_offset - start),
                ),
                (start + min_count(max as int, next_offset - start)) as u64,
            ),
        ),
{
    let l = log_records(entries, objects);
    if entries.len() > 0 {
        lemma_log_shape(entries, objects, topic, partition);
    } else {
        assert(l =~= Seq::<RecordSpec>::empty());
    }
    lemma_walk_log(start, max, entries, objects, topic, partition, Seq::empty(), start);
    if next_offset > start {
        let k = min_count(max as int, next_offset - start);
        assert(Seq::<RecordSpec>::empty() + l.subrange(start as int, start + k) =~= l.subrange(
            start as int,
            start + k,
        ));
    }
}

/// Segments of distinct base offsets have distinct keys.
pub proof fn lemma_segment_keys_distinct(topic: Seq<char>, partition: u32, a: u64, b: u64)
    requires
        a != b,
    ensures
        segment_key_text(topic, partition, a) != segment_key_text(topic, partition, b),
{
    let p = partition_dir_text(topic, partition) + "/segments/"@;
    let za = zero_pad(decimal(a as nat), 20);
    let zb = zero_pad(decimal(b as nat), 20);
    let sfx = ".olseg"@;
    assert(segment_key_text(topic, partition, a) == p + za + sfx);
    assert(segment_key_text(topic, partition, b) == p + zb + sfx);
    if p + za + sfx == p + zb + sfx {
        assert(za.len() == zb.len());
        assert((p + za + sfx).subrange(p.len() as int, (p.len() + za.len()) as int) =~= za);
        assert((p + zb + sfx).subrange(p.len() as int, (p.len() + zb.len()) as int) =~= zb);
        lemma_zero_pad_decimal_injective(a as nat, b as nat, 20);
    }
}

proof fn lemma_log_records_agree(
    entries: Seq<ManifestEntrySpec>,
    objects: Map<Seq<char>, Seq<u8>>,
    others: Map<Seq<char>, Seq<u8>>,
)
    requires
        forall|i: int|
            0 <= i < entries.len() ==> objects.contains_key(#[trigger] entries[i].segment_key)
                && others.contains_key(entries[i].segment_key) && objects[entries[i].segment_key]
                == others[entries[i].segment_key],
    ensures
        log_records(entries, objects) == log_records(entries, others),
    decreases entries.len(),
{
    if entries.len() > 0 {
        let rest = entries.drop_first();
        assert forall|i: int| 0 <= i < rest.len() implies objects.contains_key(#[trigger] rest[i].segment_key)
            && others.contains_key(rest[i].segment_key) && objects[rest[i].segment_key]
            == others[rest[i].segment_key] by {
            assert(rest[i] == entries[i + 1]);
        }
        assert(objects[entries[0].segment_key] == others[entries[0].segment_key]);
        lemma_log_records_agree(rest, objects, others);
    }
}

proof fn lemma_log_records_push(
    entries: Seq<ManifestEntrySpec>,
    e: ManifestEntrySpec,
    objects: Map<Seq<char>, Seq<u8>>,
)
    ensures
        log_records(entries.push(e), objects) == log_records(entries, objects) + entry_segment(
            e,
            objects,
        ).records,
    decreases entries.len(),
{
    if entries.len() == 0 {
        let one = entries.push(e);
        assert(one.drop_first() =~= Seq::<ManifestEntrySpec>::empty());
        assert(log_records(one.drop_first(), objects) =~= Seq::<RecordSpec>::empty());
        assert(log_records(entries, objects) =~= Seq::<RecordSpec>::empty());
        assert(log_records(one, objects) =~= log_records(entries, objects) + entry_segment(e, objects).records);
    } else {
        assert(entries.push(e).drop_first() =~= entries.drop_first().push(e));
        lemma_log_records_push(entries.drop_first(), e, objects);
        assert(entries.push(e)[0] == entries[0]);
        assert(log_records(entries.push(e), objects) =~= log_records(entries, objects) + entry_segment(
            e,
            objects,
        ).records);
    }
}

/// The append law: writing an append's segment under its key and
/// publishing the manifest entry the append plans ([`crate::plan_write`])
/// turns a log that appends built into one that appends built, whose
/// records are the old ones followed by the batch's stored records at the
/// offsets the append assigned. With [`lemma_whole_read`], a read from any
/// offset, after any later appends, returns what was written there.
pub proof fn lemma_append_extends_log(
    m: ManifestSpec,
    b: AppendBatch,
    now: i64,
    objects: Map<Seq<char>, Seq<u8>>,
)
    requires
        log_built(m.entries, objects, b.topic_partition.topic@, b.topic_partition.partition.0, m.next_offset),
        b.records.len() > 0,
        m.next_offset + b.records.len() <= u64::MAX,
        valid_topic_name(b.topic_partition.topic@),
        segment_fits(batch_segment(m.next_offset, b, now)),
        sha256_digest(segment_payload(batch_segment(m.next_offset, b, now))).len() == 32,
    ensures
        ({
            let topic = b.topic_partition.topic@;
            let partition = b.topic_partition.partition.0;
            let key = segment_key_text(topic, partition, m.next_offset);
            let bytes = segment_bytes(batch_segment(m.next_offset, b, now));
            let m2 = manifest_after_write(m, b, key, hex(sha256_digest(bytes)));
            let o2 = objects.insert(key, bytes);
            &&& log_built(m2.entries, o2, topic, partition, m2.next_offset)
            &&& log_records(m2.entries, o2) == log_records(m.entries, objects) + stored_records(
                b.records@,
                m.next_offset,
                b.timestamp_policy,
                now,
            )
        }),
{
    let topic = b.topic_partition.topic@;
    let partition = b.topic_partition.partition.0;
    let key = segment_key_text(topic, partition, m.next_offset);
    let seg = batch_segment(m.next_offset, b, now);
    let bytes = segment_bytes(seg);
    let m2 = manifest_after_write(m, b, key, hex(sha256_digest(bytes)));
    let o2 = objects.insert(key, bytes);
    let es = m.entries;
    let e = m2.entries.last();
    assert(m2.entries == es.push(e));
    assert(offsets_contiguous(seg.base_offset, seg.records));
    lemma_segment_round_trip(seg);
    lemma_partition_keys_valid(topic, partition, m.next_offset);
    if es.len() > 0 {
        lemma_log_shape(es, objects, topic, partition);
    }
    assert forall|i: int| 0 <= i < es.len() implies (#[trigger] es[i]).segment_key != key by {
        assert(es[i].base_offset <= es[i].last_offset);
        lemma_segment_keys_distinct(topic, partition, es[i].base_offset, m.next_offset);
    }
    assert forall|i: int| 0 <= i < es.len() implies objects.contains_key(#[trigger] es[i].segment_key)
        && o2.contains_key(es[i].segment_key) && objects[es[i].segment_key] == o2[es[i].segment_key] by {
        assert(entry_sound(es[i], objects, topic, partition));
    }
    lemma_log_records_agree(es, objects, o2);
    lemma_log_records_push(es, e, o2);
    assert(entry_segment(e, o2) == seg);
    assert forall|i: int| 0 <= i < m2.entries.len() implies entry_sound(#[trigger] m2.entries[i], o2, topic, partition) by {
        if i < es.len() {
            assert(m2.entries[i] == es[i]);
            assert(entry_sound(es[i], objects, topic, partition));
            assert(entry_segment(es[i], o2) == entry_segment(es[i], objects));
        }
    }
    assert forall|i: int| 0 <= i < m2.entries.len() - 1 implies #[trigger] m2.entries[i + 1].base_offset
        == m2.entries[i].last_offset + 1 by {
        if i + 1 < es.len() {
            assert(m2.entries[i + 1] == es[i + 1]);
            assert(m2.entries[i] == es[i]);
        } else {
            assert(m2.entries[i] == es.last());
        }
    }
    assert forall|i: int| 0 <= i < m2.entries.len() implies (#[trigger] m2.entries[i]).segment_key
        == segment_key_text(topic, partition, m2.entries[i].base_offset) by {
        if i < es.len() {
            assert(m2.entries[i] == es[i]);
        }
    }
    if es.len() > 0 {
        assert(m2.entries[0] == es[0]);
    }
}

/// The failed-append law: an append that is fenced writes nothing, and one
/// whose manifest compare-and-set fails leaves the manifest as it was and
/// may have written only its segment, under the key of the partition's next
/// offset. No entry of a log that appends built references that key, so a
/// read returns exactly what it returned before the append.
pub proof fn lemma_failed_append_invisible(
    start: u64,
    max: nat,
    entries: Seq<ManifestEntrySpec>,
    objects: Map<Seq<char>, Seq<u8>>,
    topic: Seq<char>,
    partition: u32,
    next_offset: u64,
    bytes: Seq<u8>,
)
    requires
        log_built(entries, objects, topic, partition, next_offset),
    ensures
        read_walk(
            start,
            max,
            entries,
            objects.insert(segment_key_text(topic, partition, next_offset), bytes),
            topic,
            partition,
            Seq::empty(),
            start,
        ) == read_walk(start, max, entries, objects, topic, partition, Seq::empty(), start),
{
    let key = segment_key_text(topic, partition, next_offset);
    let o2 = objects.insert(key, bytes);
    if entries.len() > 0 {
        lemma_log_shape(entries, objects, topic, partition);
    }
    assert forall|i: int| 0 <= i < entries.len() implies stored_object(o2, #[trigger] entries[i].segment_key)
        == stored_object(objects, entries[i].segment_key) by {
        assert(entries[i].base_offset <= entries[i].last_offset);
        lemma_segment_keys_distinct(topic, partition, entries[i].base_offset, next_offset);
    }
    lemma_read_sees_only_referenced(start, max, entries, o2, objects, topic, partition, Seq::empty(), start);
}

} // verus!
