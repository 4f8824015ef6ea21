//! Request planning for the S3-compatible blob store: when a write goes
//! multipart and how it is cut into parts, and how a range read is asked for.
use crate::blob::{check_range_order, inverted_range_message, past_end_message};
use crate::error::ObjectLogError;
use crate::text::{decimal, push_decimal, push_str};
use std::ops::Range;
use vstd::prelude::*;

verus! {

/// Objects larger than this are written with multipart upload, by default.
pub const DEFAULT_MULTIPART_THRESHOLD: usize = 16 * 1024 * 1024;

/// The default multipart part size.
pub const DEFAULT_PART_SIZE: usize = 8 * 1024 * 1024;

/// The smallest part size S3 accepts.
pub const MIN_PART_SIZE: usize = 5 * 1024 * 1024;

/// When writes go multipart, and the size of their parts.
#[derive(Clone, Copy, Debug)]
pub struct MultipartPolicy {
    threshold: usize,
    part_size: usize,
}

/// Whether `ranges` cut `0..len` into consecutive parts of `part_size`
/// bytes, the last possibly shorter.
pub open spec fn cuts_into_parts(ranges: Seq<(usize, usize)>, len: nat, part_size: nat) -> bool {
    &&& (len == 0 <==> ranges.len() == 0)
    &&& ranges.len() > 0 ==> ranges[0].0 == 0 && ranges.last().1 == len
    &&& forall|i: int|
        0 <= i < ranges.len() ==> (#[trigger] ranges[i]).0 < ranges[i].1 && ranges[i].1 == (
        if ranges[i].0 + part_size <= len {
            ranges[i].0 + part_size
        } else {
            len as int
        })
    &&& forall|i: int| 0 < i < ranges.len() ==> (#[trigger] ranges[i]).0 == ranges[i - 1].1
}

impl MultipartPolicy {
    /// The part size never falls below the S3 minimum.
    #[verifier::type_invariant]
    closed spec fn inv(self) -> bool {
        self.part_size >= MIN_PART_SIZE
    }

    /// Objects larger than this many bytes go multipart.
    pub closed spec fn threshold_spec(&self) -> usize {
        self.threshold
    }

    /// The part size.
    pub closed spec fn part_size_spec(&self) -> usize {
        self.part_size
    }

    /// The default policy: a 16 MiB threshold and 8 MiB parts.
    pub fn new() -> (p: Self)
        ensures
            p.threshold_spec() == DEFAULT_MULTIPART_THRESHOLD,
            p.part_size_spec() == DEFAULT_PART_SIZE,
    {
        MultipartPolicy { threshold: DEFAULT_MULTIPART_THRESHOLD, part_size: DEFAULT_PART_SIZE }
    }

    /// Override the threshold and part size; a part size below the S3
    /// minimum is raised to it.
    pub fn with_multipart(self, threshold: usize, part_size: usize) -> (p: Self)
        ensures
            p.threshold_spec() == threshold,
            p.part_size_spec() == if part_size >= MIN_PART_SIZE {
                part_size
            } else {
                MIN_PART_SIZE
            },
    {
        MultipartPolicy {
            threshold,
            part_size: if part_size >= MIN_PART_SIZE {
                part_size
            } else {
                MIN_PART_SIZE
            },
        }
    }

    /// The multipart threshold.
    pub fn threshold(&self) -> (n: usize)
        ensures
            n == self.threshold_spec(),
    {
        self.threshold
    }

    /// The part size (at least the S3 minimum).
    pub fn part_size(&self) -> (n: usize)
        ensures
            n == self.part_size_spec(),
            n >= MIN_PART_SIZE,
    {
        proof {
            use_type_invariant(self);
        }
        self.part_size
    }

    /// Whether an object of `len` bytes is written with multipart upload.
    pub fn uses_multipart(&self, len: usize) -> (r: bool)
        ensures
            r == (len > self.threshold_spec()),
    {
        len > self.threshold
    }

    /// The byte ranges of the parts of an object of `len` bytes, in part
    /// order (part numbers count from 1).
    pub fn part_ranges(&self, len: usize) -> (r: Vec<(usize, usize)>)
        requires
            len + self.part_size_spec() <= usize::MAX,
        ensures
            cuts_into_parts(r@, len as nat, self.part_size_spec() as nat),
    {
        let ps = self.part_size();
        let mut parts: Vec<(usize, usize)> = Vec::new();
        let mut offset: usize = 0;
        while offset < len
            invariant
                ps == self.part_size_spec(),
                ps > 0,
                len + ps <= usize::MAX,
                offset <= len,
                offset == 0 <==> parts@.len() == 0,
                parts@.len() > 0 ==> parts@[0].0 == 0 && parts@.last().1 == offset,
                forall|i: int|
                    0 <= i < parts@.len() ==> (#[trigger] parts@[i]).0 < parts@[i].1 && parts@[i].1
                        == (if parts@[i].0 + ps <= len {
                        parts@[i].0 + ps
                    } else {
                        len as int
                    }),
                forall|i: int| 0 < i < parts@.len() ==> (#[trigger] parts@[i]).0 == parts@[i - 1].1,
            decreases len - offset,
        {
            let end = if offset + ps <= len {
                offset + ps
            } else {
                len
            };
            parts.push((offset, end));
            offset = end;
        }
        parts
    }
}

/// How a range read is asked of S3.
pub enum RangeRead {
    /// An empty range: S3 has none, so the read checks the key exists and
    /// answers empty bytes.
    Empty,
    /// A ranged GET with this `Range` header.
    Header(String),
}

/// The inclusive HTTP range header for bytes `start..end`:
/// `bytes={start}-{end - 1}`.
pub open spec fn range_header_text(start: u64, end: u64) -> Seq<char> {
    "bytes="@ + decimal(start as nat) + "-"@ + decimal((end - 1) as nat)
}

/// Plan a range read: an inverted range is
/// [`ObjectLogError::RangeOutOfBounds`], an empty one is read as
/// [`RangeRead::Empty`], any other with an inclusive range header.
pub fn plan_range_read(range: &Range<u64>) -> (r: Result<RangeRead, ObjectLogError>)
    ensures
        range.start > range.end ==> (r matches Err(ObjectLogError::RangeOutOfBounds(m)) && m@
            == inverted_range_message(range.start, range.end)),
        range.start == range.end ==> r matches Ok(RangeRead::Empty),
        range.start < range.end ==> (r matches Ok(RangeRead::Header(h)) && h@ == range_header_text(
            range.start,
            range.end,
        )),
{
    match check_range_order(range) {
        Err(e) => {
            return Err(e);
        },
        Ok(()) => {},
    }
    if range.start == range.end {
        return Ok(RangeRead::Empty);
    }
    let mut h = String::new();
    proof {
        reveal_strlit("bytes=");
        reveal_strlit("-");
    }
    push_str(&mut h, "bytes=");
    push_decimal(&mut h, range.start);
    push_str(&mut h, "-");
    push_decimal(&mut h, range.end - 1);
    Ok(RangeRead::Header(h))
}

/// Check the body a ranged GET returned for `range`: S3 answers a range
/// that runs past the object's end with the bytes that exist, so a body
/// shorter than the range means the object ends at `start + body_len`, and
/// the read is [`ObjectLogError::RangeOutOfBounds`] as for every store.
pub fn check_range_body(range: &Range<u64>, body_len: usize) -> (r: Result<(), ObjectLogError>)
    requires
        range.start < range.end,
    ensures
        body_len == range.end - range.start ==> r is Ok,
        body_len != range.end - range.start ==> (r matches Err(ObjectLogError::RangeOutOfBounds(m))
            && m@ == past_end_message(
            range.end,
            if range.start + body_len <= u64::MAX {
                (range.start + body_len) as u64
            } else {
                u64::MAX
            },
        )),
{
    if body_len as u64 == range.end - range.start {
        return Ok(());
    }
    let len = range.start.saturating_add(body_len as u64);
    Err(ObjectLogError::RangeOutOfBounds(past_end_text(range.end, len)))
}

fn past_end_text(end: u64, len: u64) -> (m: String)
    ensures
        m@ == past_end_message(end, len),
{
    let mut m = String::new();
    proof {
        reveal_strlit("end ");
        reveal_strlit(" > len ");
    }
    push_str(&mut m, "end ");
    push_decimal(&mut m, end);
    push_str(&mut m, " > len ");
    push_decimal(&mut m, len);
    m
}

} // verus!
