//! The segment format (little-endian, version 1).
//!
//! ```text
//! header:  MAGIC "OLOG" (4) | version u16 | topic_len u16 | topic bytes
//!          | partition u32 | base_offset u64 | epoch u64 | record_count u32
//! record:  offset_delta u32 | timestamp_ms i64 | key_len i32 (negative = none)
//!          | value_len u32 | header_count u16 | [key] | value
//!          | header*( name_len u16 | value_len u32 | name | value )
//! trailer: SHA-256 (32) over all preceding bytes
//! ```
//!
//! Records are offset-contiguous from `base_offset`. Decoding verifies the
//! trailer checksum, the magic/version, contiguity, and that no trailing bytes
//! remain before the checksum.
use crate::digest::{sha256, sha256_digest};
use crate::error::ObjectLogError;
use crate::text::bytes_equal;
use crate::model::{
    AppendedRecord, HeaderSpec, RecordHeader, RecordSpec, TopicName, TopicPartition, PartitionId,
    headers_view, opt_bytes_view, records_view, valid_topic_name,
};
use vstd::bytes::*;
use vstd::slice::{slice_subrange, slice_to_vec};
use vstd::prelude::*;
use vstd::string::*;
use vstd::utf8::*;

verus! {

broadcast use vstd::seq::group_seq_axioms, vstd::seq_lib::group_seq_properties,
    vstd::seq_lib::lemma_seq_skip_of_skip;

/// Length of the SHA-256 trailer.
pub const CHECKSUM_LEN: usize = 32;

/// The format version this library writes and reads.
pub const VERSION: u16 = 1;

/// The four magic bytes that open every segment: `OLOG`.
pub open spec fn magic() -> Seq<u8> {
    seq![0x4fu8, 0x4cu8, 0x4fu8, 0x47u8]
}

/// Little-endian encodings of the fixed-width fields.
pub open spec fn le_u16(x: u16) -> Seq<u8> {
    spec_u16_to_le_bytes(x)
}

/// Little-endian encoding of a `u32`.
pub open spec fn le_u32(x: u32) -> Seq<u8> {
    spec_u32_to_le_bytes(x)
}

/// Little-endian encoding of a `u64`.
pub open spec fn le_u64(x: u64) -> Seq<u8> {
    spec_u64_to_le_bytes(x)
}

/// Little-endian two's-complement encoding of an `i32`.
pub open spec fn le_i32(x: i32) -> Seq<u8> {
    spec_u32_to_le_bytes(x as u32)
}

/// Little-endian two's-complement encoding of an `i64`.
pub open spec fn le_i64(x: i64) -> Seq<u8> {
    spec_u64_to_le_bytes(x as u64)
}

/// The mathematical value of a segment.
pub struct SegmentSpec {
    /// Topic name.
    pub topic: Seq<char>,
    /// Partition number.
    pub partition: u32,
    /// Offset of the first record.
    pub base_offset: u64,
    /// Writer epoch.
    pub epoch: u64,
    /// The records, in offset order.
    pub records: Seq<RecordSpec>,
}

/// One immutable, checksummed run of offset-contiguous records of a partition.
#[derive(Clone, Debug, PartialEq, Eq)]
pub struct Segment {
    /// The partition the records belong to.
    pub topic_partition: TopicPartition,
    /// Offset of the first record.
    pub base_offset: u64,
    /// Writer epoch recorded with the segment.
    pub epoch: u64,
    /// The records, in offset order.
    pub records: Vec<AppendedRecord>,
}

impl View for Segment {
    type V = SegmentSpec;

    open spec fn view(&self) -> SegmentSpec {
        SegmentSpec {
            topic: self.topic_partition.topic@,
            partition: self.topic_partition.partition.0,
            base_offset: self.base_offset,
            epoch: self.epoch,
            records: records_view(self.records@),
        }
    }
}

/// Whether every record's offset is `base_offset` plus its index.
pub open spec fn offsets_contiguous(base: u64, records: Seq<RecordSpec>) -> bool {
    forall|i: int| 0 <= i < records.len() ==> records[i].offset == base + i
}

/// Whether `k` is the first index whose offset breaks contiguity.
pub open spec fn first_gap(base: u64, records: Seq<RecordSpec>, k: int) -> bool {
    &&& 0 <= k < records.len()
    &&& records[k].offset != base + k
    &&& forall|j: int| 0 <= j < k ==> records[j].offset == base + j
}

/// Whether checking contiguity never computes an offset above `u64::MAX`
/// (the check stops at the first gap).
pub open spec fn contiguity_check_fits(base: u64, records: Seq<RecordSpec>) -> bool {
    forall|i: int|
        #![trigger records[i]]
        0 <= i < records.len() && base + i > u64::MAX ==> exists|j: int|
            0 <= j < i && #[trigger] records[j].offset != base + j
}

/// Whether every length in a header fits its field.
pub open spec fn header_fits(h: HeaderSpec) -> bool {
    &&& encode_utf8(h.name).len() <= u16::MAX
    &&& h.value.len() <= u32::MAX
}

/// Whether every length in a record fits its field.
pub open spec fn record_fits(r: RecordSpec) -> bool {
    &&& (r.key matches Some(k) ==> k.len() <= i32::MAX)
    &&& r.value.len() <= u32::MAX
    &&& r.headers.len() <= u16::MAX
    &&& forall|j: int| 0 <= j < r.headers.len() ==> header_fits(#[trigger] r.headers[j])
}

/// Whether every length in a segment fits its field.
pub open spec fn segment_fits(s: SegmentSpec) -> bool {
    &&& encode_utf8(s.topic).len() <= u16::MAX
    &&& s.records.len() <= u32::MAX
    &&& forall|i: int| 0 <= i < s.records.len() ==> record_fits(#[trigger] s.records[i])
}

/// The encoding of one header.
pub open spec fn header_bytes(h: HeaderSpec) -> Seq<u8> {
    let name = encode_utf8(h.name);
    le_u16(name.len() as u16) + le_u32(h.value.len() as u32) + name + h.value
}

/// The concatenated encodings of a list of headers.
pub open spec fn headers_bytes(hs: Seq<HeaderSpec>) -> Seq<u8> {
    hs.map_values(|h: HeaderSpec| header_bytes(h)).flatten()
}

/// The key-length field: the key's length, or `-1` when there is no key.
pub open spec fn key_len_field(key: Option<Seq<u8>>) -> i32 {
    match key {
        Some(k) => k.len() as i32,
        None => -1i32,
    }
}

/// The key bytes written after the fixed fields (none when absent).
pub open spec fn key_bytes(key: Option<Seq<u8>>) -> Seq<u8> {
    match key {
        Some(k) => k,
        None => Seq::empty(),
    }
}

/// The fixed-width prefix of a record's encoding.
pub open spec fn record_fixed_bytes(r: RecordSpec, base: u64) -> Seq<u8> {
    le_u32((r.offset - base) as u32) + le_i64(r.timestamp_ms) + le_i32(key_len_field(r.key))
        + le_u32(r.value.len() as u32) + le_u16(r.headers.len() as u16)
}

/// The encoding of one record of a segment starting at `base`.
pub open spec fn record_bytes(r: RecordSpec, base: u64) -> Seq<u8> {
    record_fixed_bytes(r, base) + key_bytes(r.key) + r.value + headers_bytes(r.headers)
}

/// The concatenated encodings of a list of records.
pub open spec fn records_bytes(rs: Seq<RecordSpec>, base: u64) -> Seq<u8> {
    rs.map_values(|r: RecordSpec| record_bytes(r, base)).flatten()
}

/// The fixed header of a segment's encoding.
pub open spec fn segment_header_bytes(s: SegmentSpec) -> Seq<u8> {
    let topic = encode_utf8(s.topic);
    magic() + le_u16(1) + le_u16(topic.len() as u16) + topic + le_u32(s.partition) + le_u64(
        s.base_offset,
    ) + le_u64(s.epoch) + le_u32(s.records.len() as u32)
}

/// Everything of a segment's encoding that precedes the checksum.
pub open spec fn segment_payload(s: SegmentSpec) -> Seq<u8> {
    segment_header_bytes(s) + records_bytes(s.records, s.base_offset)
}

/// The complete encoding of a segment: payload followed by its SHA-256.
pub open spec fn segment_bytes(s: SegmentSpec) -> Seq<u8> {
    segment_payload(s) + sha256_digest(segment_payload(s))
}

fn put_slice(buf: &mut Vec<u8>, bytes: &[u8])
    ensures
        final(buf)@ == old(buf)@ + bytes@,
{
    let mut i: usize = 0;
    while i < bytes.len()
        invariant
            i <= bytes@.len(),
            buf@ == old(buf)@ + bytes@.take(i as int),
        decreases bytes@.len() - i,
    {
        buf.push(bytes[i]);
        assert(bytes@.take(i + 1) =~= bytes@.take(i as int).push(bytes@[i as int]));
        i = i + 1;
    }
    assert(bytes@.take(bytes@.len() as int) =~= bytes@);
}

fn put_u16_le(buf: &mut Vec<u8>, x: u16)
    ensures
        final(buf)@ == old(buf)@ + le_u16(x),
{
    let mut b = u16_to_le_bytes(x);
    buf.append(&mut b);
}

fn put_u32_le(buf: &mut Vec<u8>, x: u32)
    ensures
        final(buf)@ == old(buf)@ + le_u32(x),
{
    let mut b = u32_to_le_bytes(x);
    buf.append(&mut b);
}

fn put_u64_le(buf: &mut Vec<u8>, x: u64)
    ensures
        final(buf)@ == old(buf)@ + le_u64(x),
{
    let mut b = u64_to_le_bytes(x);
    buf.append(&mut b);
}

fn put_i32_le(buf: &mut Vec<u8>, x: i32)
    ensures
        final(buf)@ == old(buf)@ + le_i32(x),
{
    let mut b = u32_to_le_bytes(x as u32);
    buf.append(&mut b);
}

fn put_i64_le(buf: &mut Vec<u8>, x: i64)
    ensures
        final(buf)@ == old(buf)@ + le_i64(x),
{
    let mut b = u64_to_le_bytes(x as u64);
    buf.append(&mut b);
}

impl Segment {
    /// Offset of the last record.
    pub fn last_offset(&self) -> (r: u64)
        requires
            1 <= self.base_offset + self.records@.len() <= u64::MAX,
        ensures
            r == self.base_offset + self.records@.len() - 1,
    {
        self.base_offset + self.records.len() as u64 - 1
    }
}

/// Check that the records are offset-contiguous from `base_offset`, reporting
/// the first gap.
pub fn validate_contiguous(segment: &Segment) -> (r: Result<(), ObjectLogError>)
    requires
        contiguity_check_fits(segment.base_offset, segment@.records),
    ensures
        r is Ok <==> offsets_contiguous(segment.base_offset, segment@.records),
        r matches Err(e) ==> exists|k: int|
            first_gap(segment.base_offset, segment@.records, k) && e
                == (ObjectLogError::OffsetDiscontinuity {
                expected: (segment.base_offset + k) as u64,
                actual: segment@.records[k].offset,
            }),
{
    let ghost rs = segment@.records;
    let mut index: usize = 0;
    while index < segment.records.len()
        invariant
            rs == segment@.records,
            rs.len() == segment.records@.len(),
            contiguity_check_fits(segment.base_offset, rs),
            index <= rs.len(),
            forall|j: int| 0 <= j < index ==> rs[j].offset == segment.base_offset + j,
        decreases rs.len() - index,
    {
        assert(rs[index as int] == segment.records@[index as int]@);
        if segment.base_offset as u128 + index as u128 > u64::MAX as u128 {
            proof {
                let j = choose|j: int| 0 <= j < index && #[trigger] rs[j].offset != segment.base_offset + j;
            }
        }
        let expected = segment.base_offset + index as u64;
        let record = &segment.records[index];
        if record.offset != expected {
            proof {
                assert(first_gap(segment.base_offset, rs, index as int));
            }
            return Err(ObjectLogError::OffsetDiscontinuity { expected, actual: record.offset });
        }
        index = index + 1;
    }
    Ok(())
}

fn header_fits_exec(h: &RecordHeader) -> (r: bool)
    ensures
        r == header_fits(h@),
{
    h.name.as_str().as_bytes().len() <= 0xffff && h.value.len() as u64 <= 0xffff_ffff
}

fn record_fits_exec(r: &AppendedRecord) -> (b: bool)
    ensures
        b == record_fits(r@),
{
    match &r.key {
        Some(k) => {
            if k.len() as u64 > 0x7fff_ffff {
                return false;
            }
        },
        None => {},
    }
    if r.value.len() as u64 > 0xffff_ffff || r.headers.len() > 0xffff {
        return false;
    }
    let ghost hs = headers_view(r.headers@);
    let mut j: usize = 0;
    while j < r.headers.len()
        invariant
            hs == headers_view(r.headers@),
            j <= r.headers@.len(),
            forall|i: int| 0 <= i < j ==> header_fits(#[trigger] hs[i]),
        decreases r.headers@.len() - j,
    {
        if !header_fits_exec(&r.headers[j]) {
            assert(!header_fits(hs[j as int]));
            return false;
        }
        j = j + 1;
    }
    true
}

fn segment_fits_exec(segment: &Segment) -> (b: bool)
    ensures
        b == segment_fits(segment@),
{
    let topic = segment.topic_partition.topic.as_str();
    if topic.as_bytes().len() > 0xffff || segment.records.len() as u64 > 0xffff_ffff {
        return false;
    }
    let ghost rs = segment@.records;
    let mut i: usize = 0;
    while i < segment.records.len()
        invariant
            rs == segment@.records,
            rs.len() == segment.records@.len(),
            i <= rs.len(),
            forall|k: int| 0 <= k < i ==> record_fits(#[trigger] rs[k]),
        decreases rs.len() - i,
    {
        if !record_fits_exec(&segment.records[i]) {
            assert(!record_fits(rs[i as int]));
            return false;
        }
        i = i + 1;
    }
    true
}

fn write_header(buf: &mut Vec<u8>, h: &RecordHeader)
    requires
        header_fits(h@),
    ensures
        final(buf)@ == old(buf)@ + header_bytes(h@),
{
    let name = h.name.as_str().as_bytes();
    put_u16_le(buf, name.len() as u16);
    put_u32_le(buf, h.value.len() as u32);
    put_slice(buf, name);
    put_slice(buf, h.value.as_slice());
}

fn write_record(buf: &mut Vec<u8>, r: &AppendedRecord, base: u64)
    requires
        record_fits(r@),
        base <= r.offset,
        r.offset - base <= u32::MAX,
    ensures
        final(buf)@ == old(buf)@ + record_bytes(r@, base),
{
    let ghost start = buf@;
    put_u32_le(buf, (r.offset - base) as u32);
    put_i64_le(buf, r.timestamp_ms);
    match &r.key {
        Some(k) => put_i32_le(buf, k.len() as i32),
        None => put_i32_le(buf, -1),
    }
    put_u32_le(buf, r.value.len() as u32);
    put_u16_le(buf, r.headers.len() as u16);
    assert(buf@ =~= start + record_fixed_bytes(r@, base));
    match &r.key {
        Some(k) => put_slice(buf, k.as_slice()),
        None => {},
    }
    put_slice(buf, r.value.as_slice());
    let ghost before_headers = buf@;
    assert(before_headers =~= start + record_fixed_bytes(r@, base) + key_bytes(r@.key) + r@.value);
    let ghost hs = r@.headers;
    let mut j: usize = 0;
    while j < r.headers.len()
        invariant
            hs == r@.headers,
            hs == headers_view(r.headers@),
            j <= r.headers@.len(),
            record_fits(r@),
            buf@ == before_headers + headers_bytes(hs.take(j as int)),
        decreases r.headers@.len() - j,
    {
        assert(header_fits(hs[j as int]));
        write_header(buf, &r.headers[j]);
        proof {
            let f = |h: HeaderSpec| header_bytes(h);
            assert(hs.take(j + 1).map_values(f) =~= hs.take(j as int).map_values(f).push(
                header_bytes(hs[j as int]),
            ));
            hs.take(j as int).map_values(f).lemma_flatten_push(header_bytes(hs[j as int]));
        }
        j = j + 1;
    }
    assert(hs.take(hs.len() as int) =~= hs);
}

/// Encode a segment: header, records, then the SHA-256 of everything before.
///
/// Fails with [`ObjectLogError::InvalidBatch`] when there are no records, with
/// [`ObjectLogError::OffsetDiscontinuity`] at the first record whose offset is
/// not `base_offset` plus its index, and with [`ObjectLogError::Serialization`]
/// when a length does not fit its field.
pub fn encode_segment(segment: &Segment) -> (r: Result<Vec<u8>, ObjectLogError>)
    requires
        contiguity_check_fits(segment.base_offset, segment@.records),
    ensures
        segment@.records.len() == 0 ==> r matches Err(ObjectLogError::InvalidBatch(_)),
        segment@.records.len() > 0 && !offsets_contiguous(segment.base_offset, segment@.records)
            ==> exists|k: int|
            first_gap(segment.base_offset, segment@.records, k) && r == Err::<Vec<u8>, ObjectLogError>(
                ObjectLogError::OffsetDiscontinuity {
                    expected: (segment.base_offset + k) as u64,
                    actual: segment@.records[k].offset,
                },
            ),
        segment@.records.len() > 0 && offsets_contiguous(segment.base_offset, segment@.records)
            && !segment_fits(segment@) ==> r matches Err(ObjectLogError::Serialization(_)),
        segment@.records.len() > 0 && offsets_contiguous(segment.base_offset, segment@.records)
            && segment_fits(segment@) ==> (r matches Ok(bytes) && bytes@ == segment_bytes(segment@)),
        r matches Ok(bytes) ==> decode_spec(bytes@) == Ok::<SegmentSpec, DecodeFault>(segment@),
        r matches Ok(bytes) ==> sha256_digest(segment_payload(segment@)).len() == 32
            && bytes@.len() == segment_payload(segment@).len() + 32,
{
    if segment.records.len() == 0 {
        return Err(ObjectLogError::InvalidBatch("segment has no records".to_string()));
    }
    match validate_contiguous(segment) {
        Ok(()) => {},
        Err(e) => {
            return Err(e);
        },
    }
    if !segment_fits_exec(segment) {
        return Err(ObjectLogError::Serialization("segment field too large".to_string()));
    }
    let ghost s = segment@;
    let topic = segment.topic_partition.topic.as_str().as_bytes();
    let mut buf: Vec<u8> = Vec::new();
    put_slice(&mut buf, &[0x4fu8, 0x4cu8, 0x4fu8, 0x47u8]);
    put_u16_le(&mut buf, VERSION);
    put_u16_le(&mut buf, topic.len() as u16);
    put_slice(&mut buf, topic);
    put_u32_le(&mut buf, segment.topic_partition.partition.0);
    put_u64_le(&mut buf, segment.base_offset);
    put_u64_le(&mut buf, segment.epoch);
    put_u32_le(&mut buf, segment.records.len() as u32);
    let ghost header = buf@;
    assert(header =~= segment_header_bytes(s));
    let base = segment.base_offset;
    let ghost rs = s.records;
    let ghost f = |r: RecordSpec| record_bytes(r, base);
    let mut i: usize = 0;
    while i < segment.records.len()
        invariant
            s == segment@,
            rs == s.records,
            base == s.base_offset,
            rs.len() == segment.records@.len(),
            rs.len() <= u32::MAX,
            f == (|r: RecordSpec| record_bytes(r, base)),
            segment_fits(s),
            offsets_contiguous(base, rs),
            i <= rs.len(),
            buf@ == header + rs.take(i as int).map_values(f).flatten(),
        decreases rs.len() - i,
    {
        assert(rs[i as int] == segment.records@[i as int]@);
        assert(record_fits(rs[i as int]));
        write_record(&mut buf, &segment.records[i], base);
        proof {
            assert(rs.take(i + 1).map_values(f) =~= rs.take(i as int).map_values(f).push(
                record_bytes(rs[i as int], base),
            ));
            rs.take(i as int).map_values(f).lemma_flatten_push(record_bytes(rs[i as int], base));
        }
        i = i + 1;
    }
    assert(rs.take(rs.len() as int) =~= rs);
    let ghost payload_view = buf@;
    assert(payload_view == segment_payload(s));
    let checksum = sha256(buf.as_slice());
    put_slice(&mut buf, checksum.as_slice());
    proof {
        lemma_segment_round_trip(s);
    }
    Ok(buf)
}

/// Why a byte string is not a segment, as far as the decoder's errors tell.
pub enum DecodeFault {
    /// Truncated, trailing, mis-checksummed, non-UTF-8 or mis-framed bytes.
    Corrupt,
    /// A format version other than the one this library reads.
    Version(u16),
    /// A topic name that `TopicName::new` rejects.
    Topic,
    /// A record whose offset is not the expected next one.
    Gap { expected: u64, actual: u64 },
}

/// Whether an error reported by the decoder is the one a fault calls for.
pub open spec fn error_has_fault(e: ObjectLogError, f: DecodeFault) -> bool {
    match f {
        DecodeFault::Corrupt => e is CorruptSegment,
        DecodeFault::Version(v) => e == ObjectLogError::UnsupportedSegmentVersion(v),
        DecodeFault::Topic => e is InvalidTopic,
        DecodeFault::Gap { expected, actual } => e == (ObjectLogError::OffsetDiscontinuity {
            expected,
            actual,
        }),
    }
}

/// The little-endian integers at the front of `b`.
pub open spec fn rd_u16(b: Seq<u8>) -> u16 {
    spec_u16_from_le_bytes(b.take(2))
}

/// The `u32` at the front of `b`.
pub open spec fn rd_u32(b: Seq<u8>) -> u32 {
    spec_u32_from_le_bytes(b.take(4))
}

/// The `u64` at the front of `b`.
pub open spec fn rd_u64(b: Seq<u8>) -> u64 {
    spec_u64_from_le_bytes(b.take(8))
}

/// A header read from the front of `b`, with what follows it.
pub open spec fn parse_header(b: Seq<u8>) -> Result<(HeaderSpec, Seq<u8>), DecodeFault> {
    if b.len() < 6 {
        Err(DecodeFault::Corrupt)
    } else {
        let name_len = rd_u16(b) as int;
        let value_len = rd_u32(b.skip(2)) as int;
        let b1 = b.skip(6);
        if b1.len() < name_len {
            Err(DecodeFault::Corrupt)
        } else if !valid_utf8(b1.take(name_len)) {
            Err(DecodeFault::Corrupt)
        } else if b1.skip(name_len).len() < value_len {
            Err(DecodeFault::Corrupt)
        } else {
            let b2 = b1.skip(name_len);
            Ok(
                (
                    HeaderSpec { name: decode_utf8(b1.take(name_len)), value: b2.take(value_len) },
                    b2.skip(value_len),
                ),
            )
        }
    }
}

/// `n` headers read from the front of `b`, with what follows them.
pub open spec fn parse_headers(b: Seq<u8>, n: nat) -> Result<(Seq<HeaderSpec>, Seq<u8>), DecodeFault>
    decreases n,
{
    if n == 0 {
        Ok((Seq::empty(), b))
    } else {
        match parse_header(b) {
            Err(f) => Err(f),
            Ok((h, rest)) => match parse_headers(rest, (n - 1) as nat) {
                Err(f) => Err(f),
                Ok((hs, rest2)) => Ok((seq![h] + hs, rest2)),
            },
        }
    }
}

/// The length of the fixed-width prefix of a record.
pub open spec fn record_fixed_len() -> int {
    22
}

/// A record read from the front of `b`: its offset delta, the record (offset
/// not yet set), and what follows it.
pub open spec fn parse_record(b: Seq<u8>) -> Result<(u32, RecordSpec, Seq<u8>), DecodeFault> {
    if b.len() < 22 {
        Err(DecodeFault::Corrupt)
    } else {
        let delta = rd_u32(b);
        let ts = rd_u64(b.skip(4)) as i64;
        let key_len = rd_u32(b.skip(12)) as i32;
        let value_len = rd_u32(b.skip(16)) as int;
        let header_count = rd_u16(b.skip(20)) as nat;
        let b1 = b.skip(22);
        if key_len >= 0 && b1.len() < key_len {
            Err(DecodeFault::Corrupt)
        } else {
            let key: Option<Seq<u8>> = if key_len < 0 {
                None
            } else {
                Some(b1.take(key_len as int))
            };
            let b2 = if key_len < 0 {
                b1
            } else {
                b1.skip(key_len as int)
            };
            if b2.len() < value_len {
                Err(DecodeFault::Corrupt)
            } else {
                match parse_headers(b2.skip(value_len), header_count) {
                    Err(f) => Err(f),
                    Ok((hs, rest)) => Ok(
                        (
                            delta,
                            RecordSpec {
                                offset: 0,
                                key,
                                value: b2.take(value_len),
                                headers: hs,
                                timestamp_ms: ts,
                            },
                            rest,
                        ),
                    ),
                }
            }
        }
    }
}

/// Records `i..count` of a segment based at `base`, read from the front of
/// `b`, with what follows them. Each record's delta must equal its index.
pub open spec fn parse_records(b: Seq<u8>, base: u64, i: nat, count: nat) -> Result<
    (Seq<RecordSpec>, Seq<u8>),
    DecodeFault,
>
    decreases count - i,
{
    if i >= count {
        Ok((Seq::empty(), b))
    } else {
        match parse_record(b) {
            Err(f) => Err(f),
            Ok((delta, r, rest)) => {
                if base + delta > u64::MAX || base + i > u64::MAX {
                    Err(DecodeFault::Corrupt)
                } else if delta != i {
                    Err(DecodeFault::Gap { expected: (base + i) as u64, actual: (base + delta) as u64 })
                } else {
                    match parse_records(rest, base, i + 1, count) {
                        Err(f) => Err(f),
                        Ok((rs, rest2)) => Ok(
                            (seq![RecordSpec { offset: (base + i) as u64, ..r }] + rs, rest2),
                        ),
                    }
                }
            },
        }
    }
}

/// The segment described by a payload (everything before the checksum).
pub open spec fn parse_payload(p: Seq<u8>) -> Result<SegmentSpec, DecodeFault> {
    if p.len() < 6 || p.take(4) != magic() {
        Err(DecodeFault::Corrupt)
    } else if rd_u16(p.skip(4)) != 1 {
        Err(DecodeFault::Version(rd_u16(p.skip(4))))
    } else {
        let b = p.skip(6);
        if b.len() < 2 {
            Err(DecodeFault::Corrupt)
        } else {
            let topic_len = rd_u16(b) as int;
            let b1 = b.skip(2);
            if b1.len() < topic_len || !valid_utf8(b1.take(topic_len)) {
                Err(DecodeFault::Corrupt)
            } else if !valid_topic_name(decode_utf8(b1.take(topic_len))) {
                Err(DecodeFault::Topic)
            } else {
                let b2 = b1.skip(topic_len);
                if b2.len() < 24 {
                    Err(DecodeFault::Corrupt)
                } else {
                    let base = rd_u64(b2.skip(4));
                    match parse_records(b2.skip(24), base, 0, rd_u32(b2.skip(20)) as nat) {
                        Err(f) => Err(f),
                        Ok((rs, rest)) => {
                            if rest.len() > 0 {
                                Err(DecodeFault::Corrupt)
                            } else {
                                Ok(
                                    SegmentSpec {
                                        topic: decode_utf8(b1.take(topic_len)),
                                        partition: rd_u32(b2),
                                        base_offset: base,
                                        epoch: rd_u64(b2.skip(12)),
                                        records: rs,
                                    },
                                )
                            }
                        },
                    }
                }
            }
        }
    }
}

/// The segment a byte string encodes: the trailing 32 bytes must be the
/// SHA-256 of the rest, which must parse as a payload.
pub open spec fn decode_spec(bytes: Seq<u8>) -> Result<SegmentSpec, DecodeFault> {
    if bytes.len() < 38 {
        Err(DecodeFault::Corrupt)
    } else {
        let n = bytes.len() - 32;
        if sha256_digest(bytes.take(n)) != bytes.skip(n) {
            Err(DecodeFault::Corrupt)
        } else {
            parse_payload(bytes.take(n))
        }
    }
}

fn corrupt(msg: &str) -> (e: ObjectLogError)
    ensures
        e is CorruptSegment,
{
    ObjectLogError::CorruptSegment(msg.to_string())
}

fn read_bytes(buf: &[u8], pos: &mut usize, len: usize) -> (r: Result<Vec<u8>, ObjectLogError>)
    requires
        *old(pos) <= buf@.len(),
    ensures
        *final(pos) <= buf@.len(),
        *old(pos) + len <= buf@.len() ==> (r matches Ok(v) && v@ == buf@.skip(*old(pos) as int).take(
            len as int,
        ) && *final(pos) == *old(pos) + len),
        *old(pos) + len > buf@.len() ==> (r matches Err(e) && e is CorruptSegment),
{
    if len > buf.len() - *pos {
        return Err(corrupt("unexpected eof"));
    }
    let out = slice_to_vec(slice_subrange(buf, *pos, *pos + len));
    assert(out@ =~= buf@.skip(*old(pos) as int).take(len as int));
    *pos = *pos + len;
    Ok(out)
}

fn read_u16(buf: &[u8], pos: &mut usize) -> (r: Result<u16, ObjectLogError>)
    requires
        *old(pos) <= buf@.len(),
    ensures
        *final(pos) <= buf@.len(),
        *old(pos) + 2 <= buf@.len() ==> (r == Ok::<u16, ObjectLogError>(
            rd_u16(buf@.skip(*old(pos) as int)),
        ) && *final(pos) == *old(pos) + 2),
        *old(pos) + 2 > buf@.len() ==> (r matches Err(e) && e is CorruptSegment),
{
    if buf.len() - *pos < 2 {
        return Err(corrupt("unexpected eof"));
    }
    let x = u16_from_le_bytes(slice_subrange(buf, *pos, *pos + 2));
    assert(buf@.subrange(*pos as int, *pos + 2) =~= buf@.skip(*pos as int).take(2));
    *pos = *pos + 2;
    Ok(x)
}

fn read_u32(buf: &[u8], pos: &mut usize) -> (r: Result<u32, ObjectLogError>)
    requires
        *old(pos) <= buf@.len(),
    ensures
        *final(pos) <= buf@.len(),
        *old(pos) + 4 <= buf@.len() ==> (r == Ok::<u32, ObjectLogError>(
            rd_u32(buf@.skip(*old(pos) as int)),
        ) && *final(pos) == *old(pos) + 4),
        *old(pos) + 4 > buf@.len() ==> (r matches Err(e) && e is CorruptSegment),
{
    if buf.len() - *pos < 4 {
        return Err(corrupt("unexpected eof"));
    }
    let x = u32_from_le_bytes(slice_subrange(buf, *pos, *pos + 4));
    assert(buf@.subrange(*pos as int, *pos + 4) =~= buf@.skip(*pos as int).take(4));
    *pos = *pos + 4;
    Ok(x)
}

fn read_u64(buf: &[u8], pos: &mut usize) -> (r: Result<u64, ObjectLogError>)
    requires
        *old(pos) <= buf@.len(),
    ensures
        *final(pos) <= buf@.len(),
        *old(pos) + 8 <= buf@.len() ==> (r == Ok::<u64, ObjectLogError>(
            rd_u64(buf@.skip(*old(pos) as int)),
        ) && *final(pos) == *old(pos) + 8),
        *old(pos) + 8 > buf@.len() ==> (r matches Err(e) && e is CorruptSegment),
{
    if buf.len() - *pos < 8 {
        return Err(corrupt("unexpected eof"));
    }
    let x = u64_from_le_bytes(slice_subrange(buf, *pos, *pos + 8));
    assert(buf@.subrange(*pos as int, *pos + 8) =~= buf@.skip(*pos as int).take(8));
    *pos = *pos + 8;
    Ok(x)
}

fn read_i32(buf: &[u8], pos: &mut usize) -> (r: Result<i32, ObjectLogError>)
    requires
        *old(pos) <= buf@.len(),
    ensures
        *final(pos) <= buf@.len(),
        *old(pos) + 4 <= buf@.len() ==> (r == Ok::<i32, ObjectLogError>(
            rd_u32(buf@.skip(*old(pos) as int)) as i32,
        ) && *final(pos) == *old(pos) + 4),
        *old(pos) + 4 > buf@.len() ==> (r matches Err(e) && e is CorruptSegment),
{
    let x = read_u32(buf, pos)?;
    Ok(x as i32)
}

fn read_i64(buf: &[u8], pos: &mut usize) -> (r: Result<i64, ObjectLogError>)
    requires
        *old(pos) <= buf@.len(),
    ensures
        *final(pos) <= buf@.len(),
        *old(pos) + 8 <= buf@.len() ==> (r == Ok::<i64, ObjectLogError>(
            rd_u64(buf@.skip(*old(pos) as int)) as i64,
        ) && *final(pos) == *old(pos) + 8),
        *old(pos) + 8 > buf@.len() ==> (r matches Err(e) && e is CorruptSegment),
{
    let x = read_u64(buf, pos)?;
    Ok(x as i64)
}

/// Calls `String::from_utf8`. Trusted: the conversion succeeds exactly on
/// valid UTF-8, and then yields the characters the bytes decode to; on failure
/// it yields the standard library's message, which is left unstated.
#[verifier::external_body]
fn string_from_utf8(bytes: Vec<u8>) -> (r: Result<String, String>)
    ensures
        r is Ok <==> valid_utf8(bytes@),
        r matches Ok(s) ==> s@ == decode_utf8(bytes@),
{
    String::from_utf8(bytes).map_err(|e| e.to_string())
}

fn decode_header(buf: &[u8], pos: &mut usize) -> (r: Result<RecordHeader, ObjectLogError>)
    requires
        *old(pos) <= buf@.len(),
    ensures
        *final(pos) <= buf@.len(),
        match parse_header(buf@.skip(*old(pos) as int)) {
            Ok((h, rest)) => r matches Ok(x) && x@ == h && buf@.skip(*final(pos) as int) == rest,
            Err(f) => r matches Err(e) && error_has_fault(e, f),
        },
{
    let ghost b = buf@.skip(*pos as int);
    let ghost p0 = *pos as int;
    let name_len = read_u16(buf, pos)?;
    let value_len = read_u32(buf, pos)?;
    assert(buf@.skip(p0 + 2) =~= b.skip(2));
    assert(buf@.skip(p0 + 6) =~= b.skip(6));
    let name_bytes = read_bytes(buf, pos, name_len as usize)?;
    assert(buf@.skip(p0 + 6 + name_len) =~= b.skip(6).skip(name_len as int));
    let name = match string_from_utf8(name_bytes) {
        Ok(s) => s,
        Err(msg) => {
            return Err(ObjectLogError::CorruptSegment(msg));
        },
    };
    let value = read_bytes(buf, pos, value_len as usize)?;
    assert(buf@.skip(*pos as int) =~= b.skip(6).skip(name_len as int).skip(value_len as int));
    Ok(RecordHeader { name, value })
}

/// The result of parsing `rest` after `done` items were already read.
pub open spec fn after<T>(done: Seq<T>, r: Result<(Seq<T>, Seq<u8>), DecodeFault>) -> Result<
    (Seq<T>, Seq<u8>),
    DecodeFault,
> {
    match r {
        Ok((xs, rest)) => Ok((done + xs, rest)),
        Err(f) => Err(f),
    }
}

proof fn lemma_after_step<T>(done: Seq<T>, x: T, r: Result<(Seq<T>, Seq<u8>), DecodeFault>)
    ensures
        after(done, match r {
            Err(f) => Err(f),
            Ok((xs, rest)) => Ok((seq![x] + xs, rest)),
        }) == after(done.push(x), r),
{
    match r {
        Ok((xs, rest)) => {
            assert(done + (seq![x] + xs) =~= done.push(x) + xs);
        },
        Err(_) => {},
    }
}

#[verifier::rlimit(40)]
fn decode_headers(buf: &[u8], pos: &mut usize, count: u16) -> (r: Result<
    Vec<RecordHeader>,
    ObjectLogError,
>)
    requires
        *old(pos) <= buf@.len(),
    ensures
        *final(pos) <= buf@.len(),
        match parse_headers(buf@.skip(*old(pos) as int), count as nat) {
            Ok((hs, rest)) => r matches Ok(v) && headers_view(v@) == hs && buf@.skip(*final(pos) as int)
                == rest,
            Err(f) => r matches Err(e) && error_has_fault(e, f),
        },
{
    let ghost whole = parse_headers(buf@.skip(*pos as int), count as nat);
    let mut headers: Vec<RecordHeader> = Vec::new();
    let mut j: u16 = 0;
    assert(whole == after(headers_view(headers@), whole)) by {
        match whole {
            Ok((hs, rest)) => {
                assert(headers_view(headers@) + hs =~= hs);
            },
            Err(_) => {},
        }
    }
    while j < count
        invariant
            *pos <= buf@.len(),
            j <= count,
            whole == parse_headers(buf@.skip(*old(pos) as int), count as nat),
            whole == after(
                headers_view(headers@),
                parse_headers(buf@.skip(*pos as int), (count - j) as nat),
            ),
        decreases count - j,
    {
        let ghost b = buf@.skip(*pos as int);
        let ghost done = headers_view(headers@);
        let hr = decode_header(buf, pos);
        match hr {
            Err(e) => {
                proof {
                    let f = parse_header(b).get_Err_0();
                    assert(parse_headers(b, (count - j) as nat) == Err::<
                        (Seq<HeaderSpec>, Seq<u8>),
                        DecodeFault,
                    >(f));
                }
                return Err(e);
            },
            Ok(h) => {
                proof {
                    let (hv, rest) = parse_header(b).get_Ok_0();
                    lemma_after_step(done, hv, parse_headers(rest, (count - j - 1) as nat));
                    assert(headers_view(headers@.push(h)) =~= done.push(hv));
                }
                headers.push(h);
            },
        }
        j = j + 1;
    }
    assert(headers_view(headers@) + Seq::<HeaderSpec>::empty() =~= headers_view(headers@));
    Ok(headers)
}

#[verifier::rlimit(100)]
#[verifier::spinoff_prover]
fn decode_record(buf: &[u8], pos: &mut usize) -> (r: Result<(u32, AppendedRecord), ObjectLogError>)
    requires
        *old(pos) <= buf@.len(),
    ensures
        *final(pos) <= buf@.len(),
        match parse_record(buf@.skip(*old(pos) as int)) {
            Ok((d, rec, rest)) => r matches Ok((d2, x)) && d2 == d && x@ == rec && buf@.skip(
                *final(pos) as int,
            ) == rest,
            Err(f) => r matches Err(e) && error_has_fault(e, f),
        },
{
    let ghost b = buf@.skip(*pos as int);
    let ghost p0 = *pos as int;
    if buf.len() - *pos < 22 {
        return Err(corrupt("unexpected eof"));
    }
    let delta = read_u32(buf, pos)?;
    let timestamp_ms = read_i64(buf, pos)?;
    let key_len = read_i32(buf, pos)?;
    let value_len = read_u32(buf, pos)?;
    let header_count = read_u16(buf, pos)?;
    assert(buf@.skip(p0 + 4) =~= b.skip(4));
    assert(buf@.skip(p0 + 12) =~= b.skip(12));
    assert(buf@.skip(p0 + 16) =~= b.skip(16));
    assert(buf@.skip(p0 + 20) =~= b.skip(20));
    assert(buf@.skip(p0 + 22) =~= b.skip(22));
    let ghost b1 = b.skip(22);
    let key = if key_len < 0 {
        None
    } else {
        let k = read_bytes(buf, pos, key_len as usize)?;
        Some(k)
    };
    let ghost b2 = if key_len < 0 {
        b1
    } else {
        b1.skip(key_len as int)
    };
    assert(buf@.skip(*pos as int) =~= b2);
    let value = read_bytes(buf, pos, value_len as usize)?;
    assert(buf@.skip(*pos as int) =~= b2.skip(value_len as int));
    let headers = decode_headers(buf, pos, header_count)?;
    Ok((delta, AppendedRecord { offset: 0, key, value, headers, timestamp_ms }))
}

#[verifier::rlimit(100)]
#[verifier::spinoff_prover]
fn decode_records(buf: &[u8], pos: &mut usize, base: u64, count: u32) -> (r: Result<
    Vec<AppendedRecord>,
    ObjectLogError,
>)
    requires
        *old(pos) <= buf@.len(),
    ensures
        *final(pos) <= buf@.len(),
        match parse_records(buf@.skip(*old(pos) as int), base, 0, count as nat) {
            Ok((rs, rest)) => r matches Ok(v) && records_view(v@) == rs && buf@.skip(*final(pos) as int)
                == rest,
            Err(f) => r matches Err(e) && error_has_fault(e, f),
        },
{
    let ghost whole = parse_records(buf@.skip(*pos as int), base, 0, count as nat);
    let mut records: Vec<AppendedRecord> = Vec::new();
    assert(whole == after(records_view(records@), whole)) by {
        match whole {
            Ok((rs, rest)) => {
                assert(records_view(records@) + rs =~= rs);
            },
            Err(_) => {},
        }
    }
    let mut index: u32 = 0;
    while index < count
        invariant
            *pos <= buf@.len(),
            index <= count,
            whole == parse_records(buf@.skip(*old(pos) as int), base, 0, count as nat),
            whole == after(
                records_view(records@),
                parse_records(buf@.skip(*pos as int), base, index as nat, count as nat),
            ),
        decreases count - index,
    {
        let ghost b = buf@.skip(*pos as int);
        let ghost done = records_view(records@);
        let rr = decode_record(buf, pos);
        match rr {
            Err(e) => {
                proof {
                    let f = parse_record(b).get_Err_0();
                    assert(parse_records(b, base, index as nat, count as nat) == Err::<
                        (Seq<RecordSpec>, Seq<u8>),
                        DecodeFault,
                    >(f));
                }
                return Err(e);
            },
            Ok((delta, record)) => {
                let ghost rest = buf@.skip(*pos as int);
                if base as u128 + delta as u128 > u64::MAX as u128 || base as u128 + index as u128
                    > u64::MAX as u128 {
                    proof {
                        assert(parse_records(b, base, index as nat, count as nat) == Err::<
                            (Seq<RecordSpec>, Seq<u8>),
                            DecodeFault,
                        >(DecodeFault::Corrupt));
                    }
                    return Err(corrupt("record offset overflows"));
                }
                let offset = base + delta as u64;
                let expected = base + index as u64;
                if offset != expected {
                    proof {
                        assert(parse_records(b, base, index as nat, count as nat) == Err::<
                            (Seq<RecordSpec>, Seq<u8>),
                            DecodeFault,
                        >(DecodeFault::Gap { expected, actual: offset }));
                    }
                    return Err(ObjectLogError::OffsetDiscontinuity { expected, actual: offset });
                }
                let mut record = record;
                record.offset = offset;
                proof {
                    let (d, rv, rest2) = parse_record(b).get_Ok_0();
                    let rv2 = RecordSpec { offset: (base + index) as u64, ..rv };
                    assert(record@ == rv2);
                    lemma_after_step(
                        done,
                        rv2,
                        parse_records(rest2, base, (index + 1) as nat, count as nat),
                    );
                    assert(records_view(records@.push(record)) =~= done.push(rv2));
                }
                records.push(record);
            },
        }
        index = index + 1;
    }
    assert(records_view(records@) + Seq::<RecordSpec>::empty() =~= records_view(records@));
    Ok(records)
}

/// Decode the payload of a segment (everything before the checksum).
#[verifier::rlimit(40)]
fn decode_payload(payload: &[u8]) -> (r: Result<Segment, ObjectLogError>)
    ensures
        match parse_payload(payload@) {
            Ok(s) => r matches Ok(seg) && seg@ == s,
            Err(f) => r matches Err(e) && error_has_fault(e, f),
        },
{
    let ghost p = payload@;
    if payload.len() < 6 || payload[0] != 0x4fu8 || payload[1] != 0x4cu8 || payload[2] != 0x4fu8
        || payload[3] != 0x47u8 {
        proof {
            if p.len() >= 6 {
                assert(p.take(4) != magic()) by {
                    if p.take(4) == magic() {
                        assert(p.take(4)[0] == p[0]);
                        assert(p.take(4)[1] == p[1]);
                        assert(p.take(4)[2] == p[2]);
                        assert(p.take(4)[3] == p[3]);
                    }
                }
            }
        }
        return Err(corrupt("bad magic"));
    }
    assert(p.take(4) =~= magic());
    let mut pos: usize = 4;
    let version = read_u16(payload, &mut pos)?;
    if version != VERSION {
        return Err(ObjectLogError::UnsupportedSegmentVersion(version));
    }
    let ghost b = p.skip(6);
    let topic_len = read_u16(payload, &mut pos)?;
    assert(p.skip(8) =~= b.skip(2));
    let ghost b1 = b.skip(2);
    let topic_bytes = read_bytes(payload, &mut pos, topic_len as usize)?;
    let topic = match string_from_utf8(topic_bytes) {
        Ok(s) => s,
        Err(msg) => {
            return Err(ObjectLogError::CorruptSegment(msg));
        },
    };
    let topic = TopicName::new(topic)?;
    let ghost b2 = b1.skip(topic_len as int);
    assert(p.skip(pos as int) =~= b2);
    if payload.len() - pos < 24 {
        return Err(corrupt("unexpected eof"));
    }
    let partition = read_u32(payload, &mut pos)?;
    let base_offset = read_u64(payload, &mut pos)?;
    let epoch = read_u64(payload, &mut pos)?;
    let record_count = read_u32(payload, &mut pos)?;
    assert(p.skip(pos as int - 20) =~= b2.skip(4));
    assert(p.skip(pos as int - 12) =~= b2.skip(12));
    assert(p.skip(pos as int - 4) =~= b2.skip(20));
    assert(p.skip(pos as int) =~= b2.skip(24));
    let records = decode_records(payload, &mut pos, base_offset, record_count)?;
    if pos < payload.len() {
        return Err(corrupt("trailing bytes before checksum"));
    }
    Ok(Segment { topic_partition: TopicPartition { topic, partition: PartitionId(partition) }, base_offset, epoch, records })
}

/// Decode and verify a segment: the trailing SHA-256 must match, the framing
/// must parse exactly, the topic must be valid, and records must be
/// offset-contiguous.
pub fn decode_segment(bytes: &[u8]) -> (r: Result<Segment, ObjectLogError>)
    ensures
        match decode_spec(bytes@) {
            Ok(s) => r matches Ok(seg) && seg@ == s,
            Err(f) => r matches Err(e) && error_has_fault(e, f),
        },
        r is Ok ==> bytes@.len() >= 38 && sha256_digest(bytes@.take(bytes@.len() - 32)) == bytes@.skip(
            bytes@.len() - 32,
        ),
        bytes@.len() >= 32 && sha256_digest(bytes@.take(bytes@.len() - 32)) != bytes@.skip(
            bytes@.len() - 32,
        ) ==> (r matches Err(e) && e is CorruptSegment),
{
    if bytes.len() < 38 {
        return Err(corrupt("segment too short"));
    }
    let payload_len = bytes.len() - CHECKSUM_LEN;
    let payload = slice_subrange(bytes, 0, payload_len);
    let expected = slice_subrange(bytes, payload_len, bytes.len());
    assert(payload@ =~= bytes@.take(payload_len as int));
    assert(expected@ =~= bytes@.skip(payload_len as int));
    let actual = sha256(payload);
    if !bytes_equal(actual.as_slice(), expected) {
        return Err(corrupt("segment checksum mismatch"));
    }
    decode_payload(payload)
}

proof fn lemma_le_facts()
    ensures
        forall|x: u16| #[trigger] le_u16(x).len() == 2 && rd_u16(le_u16(x)) == x,
        forall|x: u32| #[trigger] le_u32(x).len() == 4 && rd_u32(le_u32(x)) == x,
        forall|x: u64| #[trigger] le_u64(x).len() == 8 && rd_u64(le_u64(x)) == x,
{
    lemma_auto_spec_u16_to_from_le_bytes();
    lemma_auto_spec_u32_to_from_le_bytes();
    lemma_auto_spec_u64_to_from_le_bytes();
    assert forall|x: u16| #[trigger] le_u16(x).len() == 2 && rd_u16(le_u16(x)) == x by {
        assert(le_u16(x).take(2) =~= le_u16(x));
    }
    assert forall|x: u32| #[trigger] le_u32(x).len() == 4 && rd_u32(le_u32(x)) == x by {
        assert(le_u32(x).take(4) =~= le_u32(x));
    }
    assert forall|x: u64| #[trigger] le_u64(x).len() == 8 && rd_u64(le_u64(x)) == x by {
        assert(le_u64(x).take(8) =~= le_u64(x));
    }
}

proof fn lemma_rd_prefix(a: Seq<u8>, b: Seq<u8>)
    ensures
        a.len() == 2 ==> rd_u16(a + b) == rd_u16(a),
        a.len() == 4 ==> rd_u32(a + b) == rd_u32(a),
        a.len() == 8 ==> rd_u64(a + b) == rd_u64(a),
{
    if a.len() == 2 {
        assert((a + b).take(2) =~= a.take(2));
    }
    if a.len() == 4 {
        assert((a + b).take(4) =~= a.take(4));
    }
    if a.len() == 8 {
        assert((a + b).take(8) =~= a.take(8));
    }
}

proof fn lemma_signed_round_trip(x: i32, y: i64)
    ensures
        (x as u32) as i32 == x,
        (y as u64) as i64 == y,
{
    assert((x as u32) as i32 == x) by (bit_vector);
    assert((y as u64) as i64 == y) by (bit_vector);
}

proof fn lemma_parse_header(h: HeaderSpec, rest: Seq<u8>)
    requires
        header_fits(h),
    ensures
        parse_header(header_bytes(h) + rest) == Ok::<(HeaderSpec, Seq<u8>), DecodeFault>((h, rest)),
{
    broadcast use vstd::utf8::encode_utf8_decode_utf8, vstd::utf8::encode_utf8_valid_utf8;

    lemma_le_facts();
    let name = encode_utf8(h.name);
    let a = le_u16(name.len() as u16);
    let c = le_u32(h.value.len() as u32);
    let b = header_bytes(h) + rest;
    assert(b =~= a + (c + (name + (h.value + rest))));
    lemma_rd_prefix(a, c + (name + (h.value + rest)));
    assert(b.skip(2) =~= c + (name + (h.value + rest)));
    lemma_rd_prefix(c, name + (h.value + rest));
    let b1 = b.skip(6);
    assert(b1 =~= name + (h.value + rest));
    assert(b1.take(name.len() as int) =~= name);
    assert(b1.skip(name.len() as int) =~= h.value + rest);
    let b2 = b1.skip(name.len() as int);
    assert(b2.take(h.value.len() as int) =~= h.value);
    assert(b2.skip(h.value.len() as int) =~= rest);
}

proof fn lemma_headers_bytes_unfold(hs: Seq<HeaderSpec>)
    requires
        hs.len() > 0,
    ensures
        headers_bytes(hs) == header_bytes(hs[0]) + headers_bytes(hs.drop_first()),
{
    let f = |h: HeaderSpec| header_bytes(h);
    assert(hs.map_values(f).drop_first() =~= hs.drop_first().map_values(f));
}

#[verifier::spinoff_prover]
#[verifier::rlimit(60)]
proof fn lemma_parse_headers(hs: Seq<HeaderSpec>, rest: Seq<u8>)
    requires
        forall|j: int| 0 <= j < hs.len() ==> header_fits(#[trigger] hs[j]),
    ensures
        parse_headers(headers_bytes(hs) + rest, hs.len()) == Ok::<
            (Seq<HeaderSpec>, Seq<u8>),
            DecodeFault,
        >((hs, rest)),
    decreases hs.len(),
{
    if hs.len() == 0 {
        assert(headers_bytes(hs) =~= Seq::<u8>::empty());
        assert(headers_bytes(hs) + rest =~= rest);
    } else {
        let tail = hs.drop_first();
        lemma_headers_bytes_unfold(hs);
        assert(header_fits(hs[0]));
        assert forall|j: int| 0 <= j < tail.len() implies header_fits(#[trigger] tail[j]) by {
            assert(tail[j] == hs[j + 1]);
        }
        lemma_parse_headers(tail, rest);
        let x = headers_bytes(hs) + rest;
        let r1 = headers_bytes(tail) + rest;
        assert(x =~= header_bytes(hs[0]) + r1);
        lemma_parse_header(hs[0], r1);
        assert(parse_header(x) == Ok::<(HeaderSpec, Seq<u8>), DecodeFault>((hs[0], r1)));
        assert(parse_headers(r1, (hs.len() - 1) as nat) == Ok::<
            (Seq<HeaderSpec>, Seq<u8>),
            DecodeFault,
        >((tail, rest)));
        assert(seq![hs[0]] + tail =~= hs);
    }
}

#[verifier::spinoff_prover]
#[verifier::rlimit(60)]
proof fn lemma_parse_record(r: RecordSpec, base: u64, rest: Seq<u8>)
    requires
        record_fits(r),
        base <= r.offset,
        r.offset - base <= u32::MAX,
    ensures
        parse_record(record_bytes(r, base) + rest) == Ok::<(u32, RecordSpec, Seq<u8>), DecodeFault>(
            ((r.offset - base) as u32, RecordSpec { offset: 0, ..r }, rest),
        ),
{
    lemma_le_facts();
    lemma_signed_round_trip(key_len_field(r.key), r.timestamp_ms);
    let a = le_u32((r.offset - base) as u32);
    let b = le_u64(r.timestamp_ms as u64);
    let c = le_u32(key_len_field(r.key) as u32);
    assert(b.len() == 8 && c.len() == 4);
    let d = le_u32(r.value.len() as u32);
    let e = le_u16(r.headers.len() as u16);
    let k = key_bytes(r.key);
    let h = headers_bytes(r.headers);
    let t = k + (r.value + (h + rest));
    let x = record_bytes(r, base) + rest;
    assert(x =~= a + (b + (c + (d + (e + t)))));
    lemma_rd_prefix(a, b + (c + (d + (e + t))));
    assert(x.skip(4) =~= b + (c + (d + (e + t))));
    lemma_rd_prefix(b, c + (d + (e + t)));
    assert(x.skip(12) =~= c + (d + (e + t)));
    lemma_rd_prefix(c, d + (e + t));
    assert(x.skip(16) =~= d + (e + t));
    lemma_rd_prefix(d, e + t);
    assert(x.skip(20) =~= e + t);
    lemma_rd_prefix(e, t);
    assert(x.skip(22) =~= t);
    let b2 = r.value + (h + rest);
    match r.key {
        Some(kv) => {
            assert(t.take(kv.len() as int) =~= kv);
            assert(t.skip(kv.len() as int) =~= b2);
        },
        None => {
            assert(t =~= b2);
        },
    }
    assert(b2.take(r.value.len() as int) =~= r.value);
    assert(b2.skip(r.value.len() as int) =~= h + rest);
    lemma_parse_headers(r.headers, rest);
}

proof fn lemma_records_bytes_unfold(rs: Seq<RecordSpec>, base: u64)
    requires
        rs.len() > 0,
    ensures
        records_bytes(rs, base) == record_bytes(rs[0], base) + records_bytes(rs.drop_first(), base),
{
    let f = |r: RecordSpec| record_bytes(r, base);
    assert(rs.map_values(f).drop_first() =~= rs.drop_first().map_values(f));
}

#[verifier::spinoff_prover]
#[verifier::rlimit(60)]
proof fn lemma_parse_records(rs: Seq<RecordSpec>, base: u64, i: nat, count: nat, rest: Seq<u8>)
    requires
        i <= count <= u32::MAX,
        rs.len() == count - i,
        forall|k: int| 0 <= k < rs.len() ==> (#[trigger] rs[k]).offset == base + i + k,
        forall|k: int| 0 <= k < rs.len() ==> record_fits(#[trigger] rs[k]),
    ensures
        parse_records(records_bytes(rs, base) + rest, base, i, count) == Ok::<
            (Seq<RecordSpec>, Seq<u8>),
            DecodeFault,
        >((rs, rest)),
    decreases count - i,
{
    if i >= count {
        assert(records_bytes(rs, base) =~= Seq::<u8>::empty());
        assert(records_bytes(rs, base) + rest =~= rest);
    } else {
        let tail = rs.drop_first();
        lemma_records_bytes_unfold(rs, base);
        assert(rs[0].offset == base + i);
        assert(record_fits(rs[0]));
        assert forall|k: int| 0 <= k < tail.len() implies (#[trigger] tail[k]).offset == base + (i + 1)
            + k && record_fits(tail[k]) by {
            assert(tail[k] == rs[k + 1]);
        }
        lemma_parse_records(tail, base, i + 1, count, rest);
        let x = records_bytes(rs, base) + rest;
        let r1 = records_bytes(tail, base) + rest;
        assert(x =~= record_bytes(rs[0], base) + r1);
        lemma_parse_record(rs[0], base, r1);
        assert(RecordSpec { offset: (base + i) as u64, ..RecordSpec { offset: 0, ..rs[0] } }
            == rs[0]);
        assert(seq![rs[0]] + tail =~= rs);
    }
}

proof fn lemma_fields_layout(partition: u32, base: u64, epoch: u64, count: u32, recs: Seq<u8>)
    ensures
        ({
            let b2 = le_u32(partition) + (le_u64(base) + (le_u64(epoch) + (le_u32(count) + recs)));
            &&& b2.len() >= 24
            &&& rd_u32(b2) == partition
            &&& rd_u64(b2.skip(4)) == base
            &&& rd_u64(b2.skip(12)) == epoch
            &&& rd_u32(b2.skip(20)) == count
            &&& b2.skip(24) == recs
        }),
{
    lemma_le_facts();
    let b2 = le_u32(partition) + (le_u64(base) + (le_u64(epoch) + (le_u32(count) + recs)));
    lemma_rd_prefix(le_u32(partition), le_u64(base) + (le_u64(epoch) + (le_u32(count) + recs)));
    assert(b2.skip(4) =~= le_u64(base) + (le_u64(epoch) + (le_u32(count) + recs)));
    lemma_rd_prefix(le_u64(base), le_u64(epoch) + (le_u32(count) + recs));
    assert(b2.skip(12) =~= le_u64(epoch) + (le_u32(count) + recs));
    lemma_rd_prefix(le_u64(epoch), le_u32(count) + recs);
    assert(b2.skip(20) =~= le_u32(count) + recs);
    lemma_rd_prefix(le_u32(count), recs);
    assert(b2.skip(24) =~= recs);
}

proof fn lemma_head_layout(topic: Seq<u8>, tail: Seq<u8>)
    requires
        topic.len() <= u16::MAX,
    ensures
        ({
            let p = magic() + le_u16(1) + le_u16(topic.len() as u16) + topic + tail;
            &&& p.len() >= 8
            &&& p.take(4) == magic()
            &&& rd_u16(p.skip(4)) == 1
            &&& rd_u16(p.skip(6)) == topic.len()
            &&& p.skip(8).len() >= topic.len()
            &&& p.skip(8).take(topic.len() as int) == topic
            &&& p.skip(8).skip(topic.len() as int) == tail
        }),
{
    lemma_le_facts();
    let p = magic() + le_u16(1) + le_u16(topic.len() as u16) + topic + tail;
    assert(p =~= magic() + (le_u16(1) + (le_u16(topic.len() as u16) + (topic + tail))));
    assert(p.take(4) =~= magic());
    lemma_rd_prefix(le_u16(1), le_u16(topic.len() as u16) + (topic + tail));
    assert(p.skip(4) =~= le_u16(1) + (le_u16(topic.len() as u16) + (topic + tail)));
    lemma_rd_prefix(le_u16(topic.len() as u16), topic + tail);
    assert(p.skip(6) =~= le_u16(topic.len() as u16) + (topic + tail));
    assert(p.skip(8) =~= topic + tail);
    assert(p.skip(8).take(topic.len() as int) =~= topic);
    assert(p.skip(8).skip(topic.len() as int) =~= tail);
}

proof fn lemma_parse_payload_fields(p: Seq<u8>, s: SegmentSpec)
    requires
        p.len() >= 8,
        p.take(4) == magic(),
        rd_u16(p.skip(4)) == 1,
        p.skip(8).len() >= rd_u16(p.skip(6)),
        valid_utf8(p.skip(8).take(rd_u16(p.skip(6)) as int)),
        decode_utf8(p.skip(8).take(rd_u16(p.skip(6)) as int)) == s.topic,
        valid_topic_name(s.topic),
        ({
            let b2 = p.skip(8).skip(rd_u16(p.skip(6)) as int);
            &&& b2.len() >= 24
            &&& rd_u32(b2) == s.partition
            &&& rd_u64(b2.skip(4)) == s.base_offset
            &&& rd_u64(b2.skip(12)) == s.epoch
            &&& parse_records(b2.skip(24), s.base_offset, 0, rd_u32(b2.skip(20)) as nat) == Ok::<
                (Seq<RecordSpec>, Seq<u8>),
                DecodeFault,
            >((s.records, Seq::empty()))
        }),
    ensures
        parse_payload(p) == Ok::<SegmentSpec, DecodeFault>(s),
{
    assert(p.skip(6).skip(2) =~= p.skip(8));
}

proof fn lemma_payload_shape(s: SegmentSpec)
    ensures
        segment_payload(s) == magic() + le_u16(1) + le_u16(encode_utf8(s.topic).len() as u16)
            + encode_utf8(s.topic) + (le_u32(s.partition) + (le_u64(s.base_offset) + (le_u64(
            s.epoch,
        ) + (le_u32(s.records.len() as u32) + records_bytes(s.records, s.base_offset))))),
{
    let topic = encode_utf8(s.topic);
    let recs = records_bytes(s.records, s.base_offset);
    assert(segment_payload(s) =~= magic() + le_u16(1) + le_u16(topic.len() as u16) + topic + (
    le_u32(s.partition) + (le_u64(s.base_offset) + (le_u64(s.epoch) + (le_u32(
        s.records.len() as u32,
    ) + recs)))));
}

/// A segment's encoding decodes back to the segment itself.
///
/// For every segment with a valid topic name, offset-contiguous records and
/// field lengths that fit the format, decoding the bytes that encoding
/// produces yields that same segment.
/// The digest's 32-byte length is the one fact about SHA-256 the law uses;
/// `encode_segment` establishes it for the bytes it returns.
#[verifier::spinoff_prover]
/// The integrity law: a stored object decodes only when its last 32 bytes
/// are the SHA-256 of everything before them; an object whose trailer does
/// not match (a bit flipped anywhere in it) is refused as corrupt.
pub proof fn lemma_decode_checks_trailer(bytes: Seq<u8>)
    ensures
        decode_spec(bytes) is Ok ==> bytes.len() >= 38 && sha256_digest(bytes.take(bytes.len() - 32))
            == bytes.skip(bytes.len() - 32),
        bytes.len() >= 32 && sha256_digest(bytes.take(bytes.len() - 32)) != bytes.skip(bytes.len() - 32)
            ==> decode_spec(bytes) == Err::<SegmentSpec, DecodeFault>(DecodeFault::Corrupt),
{
}

/// The field-width law: a record fits its segment exactly when each length
/// fits the width of its field — a key of at most 2^31 - 1 bytes (the
/// signed key length), a value of at most 2^32 - 1 bytes, at most 2^16 - 1
/// headers, and header names of at most 2^16 - 1 UTF-8 bytes with values of
/// at most 2^32 - 1 bytes.
pub proof fn lemma_record_fits_widths(r: RecordSpec)
    ensures
        record_fits(r) <==> ({
            &&& (r.key matches Some(k) ==> k.len() <= 0x7fff_ffff)
            &&& r.value.len() <= 0xffff_ffff
            &&& r.headers.len() <= 0xffff
            &&& forall|j: int|
                0 <= j < r.headers.len() ==> encode_utf8(#[trigger] r.headers[j].name).len() <= 0xffff
                    && r.headers[j].value.len() <= 0xffff_ffff
        }),
{
    assert((forall|j: int| 0 <= j < r.headers.len() ==> header_fits(#[trigger] r.headers[j])) <==> (
    forall|j: int|
        0 <= j < r.headers.len() ==> encode_utf8(#[trigger] r.headers[j].name).len() <= 0xffff
            && r.headers[j].value.len() <= 0xffff_ffff));
}

pub proof fn lemma_segment_round_trip(s: SegmentSpec)
    requires
        sha256_digest(segment_payload(s)).len() == 32,
        valid_topic_name(s.topic),
        offsets_contiguous(s.base_offset, s.records),
        segment_fits(s),
    ensures
        decode_spec(segment_bytes(s)) == Ok::<SegmentSpec, DecodeFault>(s),
{
    let p = segment_payload(s);
    let bytes = segment_bytes(s);
    assert(bytes.take(p.len() as int) =~= p);
    assert(bytes.skip(p.len() as int) =~= sha256_digest(p));
    let topic = encode_utf8(s.topic);
    vstd::utf8::encode_utf8_decode_utf8(s.topic);
    vstd::utf8::encode_utf8_valid_utf8(s.topic);
    let recs = records_bytes(s.records, s.base_offset);
    let count = s.records.len() as u32;
    let tail = le_u32(s.partition) + (le_u64(s.base_offset) + (le_u64(s.epoch) + (le_u32(count)
        + recs)));
    lemma_payload_shape(s);
    lemma_head_layout(topic, tail);
    lemma_fields_layout(s.partition, s.base_offset, s.epoch, count, recs);
    assert(recs =~= recs + Seq::<u8>::empty());
    assert forall|k: int| 0 <= k < s.records.len() implies (#[trigger] s.records[k]).offset
        == s.base_offset + 0 + k && record_fits(s.records[k]) by {}
    lemma_parse_records(s.records, s.base_offset, 0, s.records.len(), Seq::<u8>::empty());
    lemma_parse_payload_fields(p, s);
}

} // verus!
