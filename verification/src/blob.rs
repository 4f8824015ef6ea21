//! The blob store's logic: byte-range reads, the in-memory blob store,
//! and key handling for the filesystem blob store.
use crate::collections::{StrMap, strings_view};
use crate::error::ObjectLogError;
use crate::store::{key_is_valid, valid_object_key};
use crate::text::{decimal, push_decimal, push_str, starts_with};
use std::ops::Range;
use vstd::prelude::*;
use vstd::slice::{slice_subrange, slice_to_vec};
use vstd::string::*;

verus! {

/// The message for an inverted range: `start {start} > end {end}`.
pub open spec fn inverted_range_message(start: u64, end: u64) -> Seq<char> {
    seq!['s', 't', 'a', 'r', 't', ' '] + decimal(start as nat) + seq![' ', '>', ' ', 'e', 'n', 'd', ' ']
        + decimal(end as nat)
}

/// The message for a range past the end: `end {end} > len {len}`.
pub open spec fn past_end_message(end: u64, len: u64) -> Seq<char> {
    seq!['e', 'n', 'd', ' '] + decimal(end as nat) + seq![' ', '>', ' ', 'l', 'e', 'n', ' '] + decimal(
        len as nat,
    )
}

/// Reject an inverted range (`start > end`).
pub fn check_range_order(range: &Range<u64>) -> (r: Result<(), ObjectLogError>)
    ensures
        range.start <= range.end ==> r is Ok,
        range.start > range.end ==> (r matches Err(ObjectLogError::RangeOutOfBounds(m)) && m@
            == inverted_range_message(range.start, range.end)),
{
    if range.start > range.end {
        let mut m = String::new();
        proof {
            reveal_strlit("start ");
            reveal_strlit(" > end ");
        }
        push_str(&mut m, "start ");
        push_decimal(&mut m, range.start);
        push_str(&mut m, " > end ");
        push_decimal(&mut m, range.end);
        return Err(ObjectLogError::RangeOutOfBounds(m));
    }
    Ok(())
}

/// Reject a range that ends past an object of length `len`.
pub fn check_range_end(range: &Range<u64>, len: u64) -> (r: Result<(), ObjectLogError>)
    ensures
        range.end <= len ==> r is Ok,
        range.end > len ==> (r matches Err(ObjectLogError::RangeOutOfBounds(m)) && m@
            == past_end_message(range.end, len)),
{
    if range.end > len {
        let mut m = String::new();
        proof {
            reveal_strlit("end ");
            reveal_strlit(" > len ");
        }
        push_str(&mut m, "end ");
        push_decimal(&mut m, range.end);
        push_str(&mut m, " > len ");
        push_decimal(&mut m, len);
        return Err(ObjectLogError::RangeOutOfBounds(m));
    }
    Ok(())
}

/// What a range read of `bytes` returns: the sub-range, or `None` when the
/// range is inverted or runs past the end.
pub open spec fn range_of(bytes: Seq<u8>, start: u64, end: u64) -> Option<Seq<u8>> {
    if start <= end && end <= bytes.len() {
        Some(bytes.subrange(start as int, end as int))
    } else {
        None
    }
}

/// Slice `bytes` by `range`: an inverted range or one past the end is
/// [`ObjectLogError::RangeOutOfBounds`]; an empty `n..n` within bounds is empty.
pub fn slice_range(bytes: &[u8], range: Range<u64>) -> (r: Result<Vec<u8>, ObjectLogError>)
    ensures
        range_of(bytes@, range.start, range.end) matches Some(s) ==> (r matches Ok(v) && v@ == s),
        range.start > range.end ==> (r matches Err(ObjectLogError::RangeOutOfBounds(m)) && m@
            == inverted_range_message(range.start, range.end)),
        range.start <= range.end && range.end > bytes@.len() ==> (r matches Err(
            ObjectLogError::RangeOutOfBounds(m),
        ) && m@ == past_end_message(range.end, bytes@.len() as u64)),
{
    check_range_order(&range)?;
    let len = bytes.len() as u64;
    check_range_end(&range, len)?;
    Ok(slice_to_vec(slice_subrange(bytes, range.start as usize, range.end as usize)))
}

/// The concatenation of `chunks`, in order.
pub fn concat_chunks(chunks: Vec<Vec<u8>>) -> (r: Vec<u8>)
    ensures
        r@ == chunks@.map_values(|c: Vec<u8>| c@).flatten(),
{
    let ghost cs = chunks@.map_values(|c: Vec<u8>| c@);
    let mut out: Vec<u8> = Vec::new();
    let mut i: usize = 0;
    while i < chunks.len()
        invariant
            cs == chunks@.map_values(|c: Vec<u8>| c@),
            i <= chunks@.len(),
            out@ == cs.take(i as int).flatten(),
        decreases chunks@.len() - i,
    {
        let mut piece = slice_to_vec(chunks[i].as_slice());
        out.append(&mut piece);
        proof {
            assert(cs.take(i + 1) =~= cs.take(i as int).push(cs[i as int]));
            cs.take(i as int).lemma_flatten_push(cs[i as int]);
        }
        i = i + 1;
    }
    assert(cs.take(chunks@.len() as int) =~= cs);
    out
}

/// The strings of `keys` that begin with `prefix`, in their given order.
pub fn filter_prefix(keys: Vec<String>, prefix: &str) -> (r: Vec<String>)
    ensures
        strings_view(r@) == strings_view(keys@).filter(|k: Seq<char>| prefix@.is_prefix_of(k)),
{
    let ghost ks = strings_view(keys@);
    let ghost pred = |k: Seq<char>| prefix@.is_prefix_of(k);
    let mut out: Vec<String> = Vec::new();
    let mut i: usize = 0;
    while i < keys.len()
        invariant
            ks == strings_view(keys@),
            pred == (|k: Seq<char>| prefix@.is_prefix_of(k)),
            i <= keys@.len(),
            strings_view(out@) == ks.take(i as int).filter(pred),
        decreases keys@.len() - i,
    {
        proof {
            reveal_with_fuel(Seq::<Seq<char>>::filter, 1);
            assert(ks.take(i + 1).drop_last() =~= ks.take(i as int));
        }
        if starts_with(keys[i].as_str(), prefix) {
            out.push(keys[i].clone());
            assert(strings_view(out@) =~= ks.take(i as int).filter(pred).push(ks[i as int]));
        }
        i = i + 1;
    }
    assert(ks.take(keys@.len() as int) =~= ks);
    out
}

/// The contents of an in-memory blob store: key to bytes.
pub type BlobMap = Map<Seq<char>, Seq<u8>>;

/// In-process blob store backed by a sorted map. Not crash-durable.
pub struct MemoryBlobStore {
    objects: StrMap<Vec<u8>>,
}

/// The sum of the lengths of a list of byte strings.
pub open spec fn total_len(vs: Seq<Seq<u8>>) -> nat
    decreases vs.len(),
{
    if vs.len() == 0 {
        0
    } else {
        total_len(vs.drop_last()) + vs.last().len()
    }
}

impl MemoryBlobStore {
    /// The stored blobs.
    pub closed spec fn view(&self) -> BlobMap {
        self.objects.map().map_values(|v: Vec<u8>| v@)
    }

    /// The keys, in order.
    pub closed spec fn keys(&self) -> Seq<Seq<char>> {
        self.objects.keys()
    }

    /// The stored blobs, in key order.
    pub closed spec fn values(&self) -> Seq<Seq<u8>> {
        self.objects.entries().map_values(|e: (String, Vec<u8>)| e.1@)
    }

    /// Internal consistency: entries sorted by key.
    pub closed spec fn wf(&self) -> bool {
        self.objects.wf()
    }

    /// Create an empty store.
    pub fn new() -> (s: Self)
        ensures
            s.wf(),
            s.view() == BlobMap::empty(),
    {
        let s = MemoryBlobStore { objects: StrMap::new() };
        assert(s.view() =~= BlobMap::empty());
        s
    }

    /// Number of stored objects.
    pub fn object_count(&self) -> (n: usize)
        requires
            self.wf(),
        ensures
            n == self.view().len(),
    {
        proof {
            self.lemma_len();
        }
        self.objects.len()
    }

    proof fn lemma_len(&self)
        requires
            self.wf(),
        ensures
            self.view().len() == self.objects.entries().len(),
            self.view().dom().finite(),
    {
        let ks = self.objects.keys();
        assert(self.view().dom() =~= ks.to_set());
        crate::collections::lemma_sorted_keys_distinct(ks);
        ks.unique_seq_to_set();
    }

    /// Total stored bytes across all objects.
    pub fn total_bytes(&self) -> (n: usize)
        requires
            self.wf(),
            total_len(self.values()) <= usize::MAX,
        ensures
            n == total_len(self.values()),
    {
        let mut total: usize = 0;
        let mut i: usize = 0;
        while i < self.objects.len()
            invariant
                self.wf(),
                i <= self.values().len(),
                self.values().len() == self.objects.entries().len(),
                total_len(self.values()) <= usize::MAX,
                total == total_len(self.values().take(i as int)),
            decreases self.values().len() - i,
        {
            proof {
                assert(self.values().take(i + 1).drop_last() =~= self.values().take(i as int));
                lemma_total_len_prefix(self.values(), i + 1);
            }
            total = total + self.objects.value_at(i).len();
            i = i + 1;
        }
        assert(self.values().take(i as int) =~= self.values());
        total
    }

    /// Store `value` at `key`, replacing any previous blob.
    pub fn put(&mut self, key: &str, value: Vec<u8>)
        requires
            old(self).wf(),
        ensures
            final(self).wf(),
            final(self).view() == old(self).view().insert(key@, value@),
    {
        let ghost before = self.objects.map();
        let ghost v = value@;
        self.objects.insert(key.to_string(), value);
        assert(self.view() =~= old(self).view().insert(key@, v));
    }

    /// The whole blob at `key`, or `None` if absent.
    pub fn get(&self, key: &str) -> (r: Option<Vec<u8>>)
        requires
            self.wf(),
        ensures
            r is Some <==> self.view().contains_key(key@),
            r matches Some(v) ==> v@ == self.view()[key@],
    {
        match self.objects.get(key) {
            Some(v) => Some(slice_to_vec(v.as_slice())),
            None => None,
        }
    }

    /// A byte sub-range of the blob at `key`; `None` if the key is absent.
    pub fn get_range(&self, key: &str, range: Range<u64>) -> (r: Result<Option<Vec<u8>>, ObjectLogError>)
        requires
            self.wf(),
        ensures
            !self.view().contains_key(key@) ==> r == Ok::<Option<Vec<u8>>, ObjectLogError>(None),
            self.view().contains_key(key@) ==> match range_of(self.view()[key@], range.start, range.end) {
                Some(s) => r matches Ok(Some(v)) && v@ == s,
                None => r matches Err(ObjectLogError::RangeOutOfBounds(m)) && m@ == if range.start
                    > range.end {
                    inverted_range_message(range.start, range.end)
                } else {
                    past_end_message(range.end, self.view()[key@].len() as u64)
                },
            },
    {
        match self.objects.get(key) {
            Some(v) => {
                let s = slice_range(v.as_slice(), range)?;
                Ok(Some(s))
            },
            None => Ok(None),
        }
    }

    /// Keys beginning with `prefix`, in key order.
    pub fn list(&self, prefix: &str) -> (r: Vec<String>)
        requires
            self.wf(),
        ensures
            strings_view(r@) == self.keys().filter(|k: Seq<char>| prefix@.is_prefix_of(k)),
    {
        let mut all: Vec<String> = Vec::new();
        let mut i: usize = 0;
        while i < self.objects.len()
            invariant
                i <= self.keys().len(),
                self.keys().len() == self.objects.entries().len(),
                strings_view(all@) == self.keys().take(i as int),
            decreases self.keys().len() - i,
        {
            let ghost before = all@;
            let k = self.objects.key_at(i).clone();
            all.push(k);
            proof {
                assert(all@ == before.push(k));
                assert(self.keys()[i as int] == k@);
                assert(strings_view(before).len() == i);
                assert(before.len() == i);
                assert(all@.len() == i + 1);
                assert(strings_view(all@).len() == i + 1);
                assert forall|j: int| 0 <= j < i + 1 implies #[trigger] strings_view(all@)[j]
                    == self.keys().take(i + 1)[j] by {
                    if j < i {
                        assert(strings_view(before)[j] == self.keys().take(i as int)[j]);
                    }
                }
                assert(strings_view(all@) =~= self.keys().take(i + 1));
            }
            i = i + 1;
        }
        assert(self.keys().take(i as int) =~= self.keys());
        filter_prefix(all, prefix)
    }

    /// Delete a blob; deleting a missing key is a no-op.
    pub fn delete(&mut self, key: &str)
        requires
            old(self).wf(),
        ensures
            final(self).wf(),
            final(self).view() == old(self).view().remove(key@),
    {
        self.objects.remove(key);
        assert(self.view() =~= old(self).view().remove(key@));
    }
}

proof fn lemma_total_len_prefix(vs: Seq<Seq<u8>>, i: int)
    requires
        0 <= i <= vs.len(),
    ensures
        total_len(vs.take(i)) <= total_len(vs),
    decreases vs.len(),
{
    if i < vs.len() {
        assert(vs.drop_last().take(i) =~= vs.take(i));
        lemma_total_len_prefix(vs.drop_last(), i);
    } else {
        assert(vs.take(i) =~= vs);
    }
}

/// A write is read back whole: after `put(key, v)`, `get(key)` returns `v`,
/// and a range read returns the matching slice of `v` (or an error exactly
/// when the range is inverted or runs past the end of `v`).
pub proof fn lemma_put_then_read(m: BlobMap, key: Seq<char>, value: Seq<u8>, start: u64, end: u64)
    ensures
        m.insert(key, value)[key] == value,
        range_of(m.insert(key, value)[key], start, end) == (if start <= end && end <= value.len() {
            Some(value.subrange(start as int, end as int))
        } else {
            None
        }),
{
}

/// Filesystem-backed blob store rooted at a directory (the file I/O itself
/// is performed by the application layer; this holds the root and maps keys
/// to paths).
pub struct LocalBlobStore {
    root: String,
}

/// The path `std::path::Path::join` makes of a root and a relative key.
pub uninterp spec fn joined_path(root: Seq<char>, key: Seq<char>) -> Seq<char>;

/// Calls `std::path::Path::join` on `root` and `key` and renders the result as
/// text. Trusted: the result is the joined path, a function of the two
/// arguments alone (named `joined_path`); what the joined path is (separator
/// placement, absolute keys) is left to the standard library.
#[verifier::external_body]
fn path_join(root: &str, key: &str) -> (r: String)
    ensures
        r@ == joined_path(root@, key@),
{
    std::path::Path::new(root).join(key).to_string_lossy().into_owned()
}

impl LocalBlobStore {
    /// The root directory.
    pub closed spec fn root(&self) -> Seq<char> {
        self.root@
    }

    /// Create a store rooted at `root` (created lazily on first write).
    pub fn new(root: String) -> (s: Self)
        ensures
            s.root() == root@,
    {
        LocalBlobStore { root }
    }

    /// The root directory as text.
    pub fn root_str(&self) -> (r: &str)
        ensures
            r@ == self.root(),
    {
        self.root.as_str()
    }

    /// The path of the file holding `key`: rejects an empty key or one with
    /// `\0` or a `..` path component.
    pub fn path_for(&self, key: &str) -> (r: Result<String, ObjectLogError>)
        ensures
            valid_object_key(key@) ==> (r matches Ok(p) && p@ == joined_path(self.root(), key@)),
            !valid_object_key(key@) ==> (r matches Err(ObjectLogError::InvalidObjectKey(k)) && k@
                == key@),
    {
        if !key_is_valid(key) {
            return Err(ObjectLogError::InvalidObjectKey(key.to_string()));
        }
        Ok(path_join(self.root.as_str(), key))
    }
}

} // verus!
