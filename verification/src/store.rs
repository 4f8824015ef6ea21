//! Keys, versions and the conditional-write object store the log is built on.
use crate::collections::{StrMap, entry_keys, keys_ordered, sort_strings, strings_view};
use crate::digest::{sha256_digest, sha256_hex};
use crate::error::ObjectLogError;
use crate::text::{
    bytes_equal, decimal, hex, lemma_decimal_injective, lemma_text_lt_total, lemma_text_lt_transitive,
    push_decimal, starts_with, str_eq, str_lt, text_lt,
};
use vstd::prelude::*;
use vstd::slice::slice_to_vec;
use vstd::string::*;

verus! {

/// Suffix of in-flight temp files written by the filesystem stores; keys
/// ending in it are not listed.
pub open spec fn tmp_suffix() -> Seq<char> {
    seq!['.', 'o', 'l', 'o', 'g', '-', 't', 'm', 'p']
}

/// The temp-file suffix as text.
pub fn tmp_suffix_str() -> (r: &'static str)
    ensures
        r@ == tmp_suffix(),
{
    proof {
        reveal_strlit(".olog-tmp");
    }
    let r = ".olog-tmp";
    assert(r@ =~= tmp_suffix());
    r
}

/// Whether a file name is an in-flight temp file (ends with the temp suffix).
pub fn is_temp_name(name: &str) -> (r: bool)
    ensures
        r == (tmp_suffix().len() <= name@.len() && name@.skip(name@.len() - tmp_suffix().len())
            == tmp_suffix()),
{
    crate::text::ends_with(name, tmp_suffix_str())
}

/// Whether `s` has a `..` path component (components separated by `/`) that
/// starts at index `i`.
pub open spec fn dotdot_at(s: Seq<char>, i: int) -> bool {
    &&& 0 <= i
    &&& i + 2 <= s.len()
    &&& s[i] == '.'
    &&& s[i + 1] == '.'
    &&& (i == 0 || s[i - 1] == '/')
    &&& (i + 2 == s.len() || s[i + 2] == '/')
}

/// Whether `s` is an acceptable object key: non-empty, free of `\0`, and
/// without a `..` path component.
pub open spec fn valid_object_key(s: Seq<char>) -> bool {
    &&& s.len() > 0
    &&& !s.contains('\u{0}')
    &&& !exists|i: int| dotdot_at(s, i)
}

/// Whether `key` is an acceptable object key (see [`valid_object_key`]).
pub fn key_is_valid(key: &str) -> (r: bool)
    ensures
        r == valid_object_key(key@),
{
    let n = key.unicode_len();
    if n == 0 {
        return false;
    }
    let mut i: usize = 0;
    while i < n
        invariant
            n == key@.len(),
            i <= n,
            forall|j: int| 0 <= j < i ==> key@[j] != '\u{0}' && !dotdot_at(key@, j),
        decreases n - i,
    {
        let c = key.get_char(i);
        if c == '\u{0}' {
            assert(key@.contains(key@[i as int]));
            return false;
        }
        if c == '.' && i + 1 < n && key.get_char(i + 1) == '.' && (i == 0 || key.get_char(i - 1)
            == '/') && (i + 2 == n || key.get_char(i + 2) == '/') {
            assert(dotdot_at(key@, i as int));
            return false;
        }
        i = i + 1;
    }
    assert(!key@.contains('\u{0}')) by {
        if key@.contains('\u{0}') {
            let j = choose|j: int| 0 <= j < n && key@[j] == '\u{0}';
        }
    }
    assert(!exists|i: int| dotdot_at(key@, i)) by {
        if exists|i: int| dotdot_at(key@, i) {
            let j = choose|j: int| dotdot_at(key@, j);
            assert(j < n);
        }
    }
    true
}

/// Safe object key used by object-log storage adapters.
#[derive(Debug, PartialEq, Eq, Hash, PartialOrd, Ord)]
pub struct ObjectKey(String);

impl View for ObjectKey {
    type V = Seq<char>;

    closed spec fn view(&self) -> Seq<char> {
        self.0@
    }
}

impl Clone for ObjectKey {
    fn clone(&self) -> (r: Self)
        ensures
            r@ == self@,
    {
        proof {
            use_type_invariant(self);
        }
        ObjectKey(self.0.clone())
    }
}

impl ObjectKey {
    #[verifier::type_invariant]
    closed spec fn inv(self) -> bool {
        valid_object_key(self.0@)
    }

    /// Validate and wrap an object key.
    ///
    /// Rejects empty keys and keys containing `\0` or a `..` path component
    /// (returning [`ObjectLogError::InvalidObjectKey`]).
    pub fn new(value: String) -> (r: Result<ObjectKey, ObjectLogError>)
        ensures
            valid_object_key(value@) ==> (r matches Ok(k) && k@ == value@),
            !valid_object_key(value@) ==> r == Err::<ObjectKey, ObjectLogError>(
                ObjectLogError::InvalidObjectKey(value),
            ),
    {
        if key_is_valid(value.as_str()) {
            Ok(ObjectKey(value))
        } else {
            Err(ObjectLogError::InvalidObjectKey(value))
        }
    }

    /// Borrow the validated key as a string slice.
    pub fn as_str(&self) -> (r: &str)
        ensures
            r@ == self@,
            valid_object_key(self@),
    {
        proof {
            use_type_invariant(self);
        }
        self.0.as_str()
    }

    /// The key as an owned string.
    pub fn to_string(&self) -> (r: String)
        ensures
            r@ == self@,
    {
        self.0.clone()
    }
}

/// Opaque version token for an object, used as the precondition for
/// compare-and-set. [`MemoryObjectStore`] uses its per-key write counter; the
/// filesystem store uses the SHA-256 content hash.
#[derive(Clone, Debug, PartialEq, Eq)]
pub struct ObjectVersion(pub String);

/// An object's bytes together with its current [`ObjectVersion`].
#[derive(Clone, Debug, PartialEq, Eq)]
pub struct StoredObject {
    /// The stored bytes.
    pub value: Vec<u8>,
    /// The version token for these bytes.
    pub version: ObjectVersion,
}

/// Outcome of a put-if-absent.
#[derive(Clone, Copy, Debug, PartialEq, Eq)]
pub enum PutOutcome {
    /// The object did not exist and was written.
    Created,
    /// The object already existed with byte-identical content (idempotent no-op).
    AlreadyExistsSame,
}

/// Conditional-write capabilities advertised by an object store.
#[derive(Clone, Copy, Debug, PartialEq, Eq)]
pub struct StoreCapabilities {
    /// Whether compare-and-set is supported.
    pub compare_and_set: bool,
    /// Whether put-if-absent is supported.
    pub put_if_absent: bool,
}

/// The capabilities of the bundled stores: both conditional writes.
pub fn full_capabilities() -> (c: StoreCapabilities)
    ensures
        c.compare_and_set,
        c.put_if_absent,
{
    StoreCapabilities { compare_and_set: true, put_if_absent: true }
}

/// The contents of an in-memory object store: key to (bytes, write counter).
pub type ObjectMap = Map<Seq<char>, (Seq<u8>, u64)>;

/// The version token of the object under `key`, if present.
pub open spec fn version_text(m: ObjectMap, key: Seq<char>) -> Option<Seq<char>> {
    if m.contains_key(key) {
        Some(decimal(m[key].1 as nat))
    } else {
        None
    }
}

/// The highest version each key has had: key to its write counter, kept
/// when the key is deleted.
pub type FloorMap = Map<Seq<char>, u64>;

/// The write counter of `key` (0 for a key never written).
pub open spec fn floor_of(f: FloorMap, key: Seq<char>) -> u64 {
    if f.contains_key(key) {
        f[key]
    } else {
        0
    }
}

/// The version the next write of a key gets: one more than the key's write
/// counter `floor` (saturating at `u64::MAX`). A key's first version is 1,
/// and the counter survives a delete, so a version is never handed out twice
/// for one key.
pub open spec fn next_version(floor: u64) -> u64 {
    if floor == u64::MAX {
        u64::MAX
    } else {
        (floor + 1) as u64
    }
}

/// The contents after a write of `value` under `key`, whose write counter
/// was `floor`.
pub open spec fn after_cas(m: ObjectMap, key: Seq<char>, value: Seq<u8>, floor: u64) -> ObjectMap {
    m.insert(key, (value, next_version(floor)))
}

/// Whether a compare-and-set expecting `expected` succeeds.
pub open spec fn cas_succeeds(m: ObjectMap, key: Seq<char>, expected: Option<Seq<char>>) -> bool {
    version_text(m, key) == expected
}

/// The version an expected-version argument stands for.
pub open spec fn expected_view(e: Option<ObjectVersion>) -> Option<Seq<char>> {
    match e {
        Some(v) => Some(v.0@),
        None => None,
    }
}

/// In-process object store backed by a sorted map; versions are a
/// monotonic per-key write counter, kept across deletes, so every write of
/// a key gets a version greater than any the store has handed out for it.
pub struct MemoryObjectStore {
    objects: StrMap<(Vec<u8>, u64)>,
    floors: StrMap<u64>,
}

impl MemoryObjectStore {
    /// The stored objects: key to (bytes, write counter).
    pub closed spec fn view(&self) -> ObjectMap {
        self.objects.map().map_values(|v: (Vec<u8>, u64)| (v.0@, v.1))
    }

    /// The keys, in order.
    pub closed spec fn keys(&self) -> Seq<Seq<char>> {
        self.objects.keys()
    }

    /// The per-key write counters: the highest version each key has had.
    pub closed spec fn floors(&self) -> FloorMap {
        self.floors.map()
    }

    /// The write counter of `key`: the highest version it has had (0 if it
    /// was never written).
    pub open spec fn floor(&self, key: Seq<char>) -> u64 {
        floor_of(self.floors(), key)
    }

    /// Internal consistency: entries sorted, every key a valid object key,
    /// and every stored version its key's write counter.
    pub closed spec fn wf(&self) -> bool {
        &&& self.objects.wf()
        &&& self.floors.wf()
        &&& forall|i: int| 0 <= i < self.objects.keys().len() ==> valid_object_key(
            #[trigger] self.objects.keys()[i],
        )
        &&& forall|k: Seq<char>| #[trigger] self.view().contains_key(k) ==> self.view()[k].1
            == floor_of(self.floors.map(), k)
    }

    /// An empty store.
    pub fn new() -> (s: Self)
        ensures
            s.wf(),
            s.view() == ObjectMap::empty(),
            s.floors() == FloorMap::empty(),
    {
        let s = MemoryObjectStore { objects: StrMap::new(), floors: StrMap::new() };
        assert(s.view() =~= ObjectMap::empty());
        s
    }

    /// The next version of `key`.
    fn next_of(&self, key: &str) -> (n: u64)
        requires
            self.wf(),
        ensures
            n == next_version(self.floor(key@)),
    {
        match self.floors.get(key) {
            Some(f) => f.saturating_add(1),
            None => 1,
        }
    }

    proof fn lemma_view_get(&self, k: Seq<char>)
        ensures
            self.view().contains_key(k) <==> self.objects.map().contains_key(k),
            self.objects.map().contains_key(k) ==> self.view()[k] == (
                self.objects.map()[k].0@,
                self.objects.map()[k].1,
            ),
    {
    }

    /// Fetch an object and its version, or `None` if absent.
    pub fn get(&self, key: &ObjectKey) -> (r: Option<StoredObject>)
        requires
            self.wf(),
        ensures
            r is Some <==> self.view().contains_key(key@),
            r matches Some(o) ==> o.value@ == self.view()[key@].0 && o.version.0@ == decimal(
                self.view()[key@].1 as nat,
            ) && self.view()[key@].1 == self.floor(key@),
    {
        proof {
            self.lemma_view_get(key@);
        }
        match self.objects.get(key.as_str()) {
            Some(entry) => {
                let mut version = String::new();
                push_decimal(&mut version, entry.1);
                Some(
                    StoredObject {
                        value: slice_to_vec(entry.0.as_slice()),
                        version: ObjectVersion(version),
                    },
                )
            },
            None => None,
        }
    }

    proof fn lemma_insert_wf(&self, other: &Self, k: Seq<char>, v: (Vec<u8>, u64))
        requires
            self.wf(),
            valid_object_key(k),
            other.objects.wf(),
            other.floors.wf(),
            other.objects.map() == self.objects.map().insert(k, v),
            other.floors.map() == self.floors.map().insert(k, v.1),
        ensures
            other.wf(),
            other.view() == self.view().insert(k, (v.0@, v.1)),
    {
        assert forall|i: int| 0 <= i < other.objects.keys().len() implies valid_object_key(
            #[trigger] other.objects.keys()[i],
        ) by {
            let kk = other.objects.keys()[i];
            assert(other.objects.keys().contains(kk));
            assert(other.objects.map().contains_key(kk));
            if kk != k {
                assert(self.objects.map().contains_key(kk));
                let j = self.objects.keys().index_of(kk);
                assert(self.objects.keys()[j] == kk);
            }
        }
        assert(other.view() =~= self.view().insert(k, (v.0@, v.1)));
        assert forall|kk: Seq<char>| #[trigger] other.view().contains_key(kk) implies other.view()[kk].1
            == floor_of(other.floors.map(), kk) by {
            if kk != k {
                assert(self.view().contains_key(kk));
            }
        }
    }

    /// Write `value` only if `key` is absent. Re-writing identical bytes is an
    /// idempotent [`PutOutcome::AlreadyExistsSame`]; different bytes conflict
    /// with [`ObjectLogError::ObjectConflict`].
    pub fn put_if_absent(&mut self, key: &ObjectKey, value: Vec<u8>) -> (r: Result<
        PutOutcome,
        ObjectLogError,
    >)
        requires
            old(self).wf(),
        ensures
            final(self).wf(),
            !old(self).view().contains_key(key@) ==> r == Ok::<PutOutcome, ObjectLogError>(
                PutOutcome::Created,
            ) && final(self).view() == after_cas(old(self).view(), key@, value@, old(self).floor(key@))
                && final(self).floors() == old(self).floors().insert(
                key@,
                next_version(old(self).floor(key@)),
            ),
            old(self).view().contains_key(key@) && old(self).view()[key@].0 == value@ ==> r == Ok::<
                PutOutcome,
                ObjectLogError,
            >(PutOutcome::AlreadyExistsSame) && final(self).view() == old(self).view()
                && final(self).floors() == old(self).floors(),
            old(self).view().contains_key(key@) && old(self).view()[key@].0 != value@ ==> r == Err::<
                PutOutcome,
                ObjectLogError,
            >(ObjectLogError::ObjectConflict) && final(self).view() == old(self).view()
                && final(self).floors() == old(self).floors(),
    {
        proof {
            self.lemma_view_get(key@);
        }
        let same = match self.objects.get(key.as_str()) {
            Some(entry) => Some(bytes_equal(entry.0.as_slice(), value.as_slice())),
            None => None,
        };
        match same {
            Some(true) => Ok(PutOutcome::AlreadyExistsSame),
            Some(false) => Err(ObjectLogError::ObjectConflict),
            None => {
                let ghost before = *self;
                let k = key.to_string();
                let next = self.next_of(key.as_str());
                let ghost vv = (value, next);
                self.objects.insert(k, (value, next));
                self.floors.insert(key.to_string(), next);
                proof {
                    before.lemma_insert_wf(self, key@, vv);
                }
                Ok(PutOutcome::Created)
            },
        }
    }

    /// Atomically replace the object iff its current version equals
    /// `expected` (`None` meaning "must not exist"), returning the newly
    /// stored object. A version mismatch yields [`ObjectLogError::Conflict`].
    pub fn compare_and_set(
        &mut self,
        key: &ObjectKey,
        expected: Option<ObjectVersion>,
        value: Vec<u8>,
    ) -> (r: Result<StoredObject, ObjectLogError>)
        requires
            old(self).wf(),
        ensures
            final(self).wf(),
            r is Ok <==> cas_succeeds(old(self).view(), key@, expected_view(expected)),
            r matches Ok(o) ==> o.value@ == value@ && o.version.0@ == decimal(
                next_version(old(self).floor(key@)) as nat,
            ) && final(self).view() == after_cas(old(self).view(), key@, value@, old(self).floor(key@))
                && final(self).floors() == old(self).floors().insert(
                key@,
                next_version(old(self).floor(key@)),
            ),
            r matches Err(e) ==> e == ObjectLogError::Conflict && final(self).view() == old(
                self,
            ).view() && final(self).floors() == old(self).floors(),
    {
        proof {
            self.lemma_view_get(key@);
        }
        let current: Option<u64> = match self.objects.get(key.as_str()) {
            Some(entry) => Some(entry.1),
            None => None,
        };
        let matches_expected = match (&current, &expected) {
            (None, None) => true,
            (Some(n), Some(v)) => {
                let mut text = String::new();
                push_decimal(&mut text, *n);
                text == v.0
            },
            _ => false,
        };
        if !matches_expected {
            return Err(ObjectLogError::Conflict);
        }
        let next: u64 = self.next_of(key.as_str());
        let stored = slice_to_vec(value.as_slice());
        let ghost before = *self;
        let ghost vv = (value, next);
        self.objects.insert(key.to_string(), (value, next));
        self.floors.insert(key.to_string(), next);
        proof {
            before.lemma_insert_wf(self, key@, vv);
            assert(after_cas(before.view(), key@, vv.0@, before.floor(key@)) == before.view().insert(
                key@,
                (vv.0@, next),
            ));
        }
        let mut version = String::new();
        push_decimal(&mut version, next);
        Ok(StoredObject { value: stored, version: ObjectVersion(version) })
    }

    /// Keys beginning with `prefix`, in key order.
    pub fn list(&self, prefix: &str) -> (r: Result<Vec<ObjectKey>, ObjectLogError>)
        requires
            self.wf(),
        ensures
            r matches Ok(ks) && ks@.map_values(|k: ObjectKey| k@) == self.keys().filter(
                |k: Seq<char>| prefix@.is_prefix_of(k),
            ),
    {
        let ghost pred = |k: Seq<char>| prefix@.is_prefix_of(k);
        let mut out: Vec<ObjectKey> = Vec::new();
        let n = self.objects.len();
        let mut i: usize = 0;
        while i < n
            invariant
                self.wf(),
                n == self.keys().len(),
                i <= n,
                pred == (|k: Seq<char>| prefix@.is_prefix_of(k)),
                out@.map_values(|k: ObjectKey| k@) == self.keys().take(i as int).filter(pred),
            decreases n - i,
        {
            let key = self.objects.key_at(i);
            proof {
                reveal_with_fuel(Seq::<Seq<char>>::filter, 1);
                assert(self.keys().take(i + 1).drop_last() =~= self.keys().take(i as int));
                assert(self.keys()[i as int] == key@);
            }
            if starts_with(key.as_str(), prefix) {
                assert(valid_object_key(self.keys()[i as int]));
                let k = ObjectKey::new(key.clone())?;
                out.push(k);
                assert(out@.map_values(|k: ObjectKey| k@) =~= self.keys().take(i as int).filter(
                    pred,
                ).push(key@));
            }
            i = i + 1;
        }
        assert(self.keys().take(n as int) =~= self.keys());
        Ok(out)
    }

    /// Delete an object; deleting a missing key is a no-op.
    pub fn delete(&mut self, key: &ObjectKey)
        requires
            old(self).wf(),
        ensures
            final(self).wf(),
            final(self).view() == old(self).view().remove(key@),
            final(self).floors() == old(self).floors(),
    {
        let ghost before = *self;
        self.objects.remove(key.as_str());
        proof {
            assert forall|i: int| 0 <= i < self.objects.keys().len() implies valid_object_key(
                #[trigger] self.objects.keys()[i],
            ) by {
                let kk = self.objects.keys()[i];
                assert(self.objects.keys().contains(kk));
                assert(self.objects.map().contains_key(kk));
                assert(before.objects.map().contains_key(kk));
                let j = before.objects.keys().index_of(kk);
                assert(before.objects.keys()[j] == kk);
            }
            assert(self.view() =~= before.view().remove(key@));
            assert forall|kk: Seq<char>| #[trigger] self.view().contains_key(kk) implies self.view()[kk].1
                == floor_of(self.floors.map(), kk) by {
                assert(before.view().contains_key(kk));
            }
        }
    }

    /// Report which conditional writes this store supports: both.
    pub fn capabilities(&self) -> (c: StoreCapabilities)
        ensures
            c.compare_and_set,
            c.put_if_absent,
    {
        full_capabilities()
    }
}

/// A successful compare-and-set makes the new bytes what a read returns, under
/// the version token it reported.
pub proof fn lemma_cas_then_get(m: ObjectMap, key: Seq<char>, value: Seq<u8>, floor: u64)
    ensures
        after_cas(m, key, value, floor).contains_key(key),
        after_cas(m, key, value, floor)[key].0 == value,
        version_text(after_cas(m, key, value, floor), key) == Some(decimal(next_version(floor) as nat)),
{
}

/// Versions of a key are never reused: while its write counter `floor` has
/// not saturated, a write gets a version greater than every version the key
/// has had (all of which are at most the counter, which a delete keeps), so
/// a token read before the write, even one of a since-deleted object, no
/// longer matches.
pub proof fn lemma_versions_never_reused(m: ObjectMap, key: Seq<char>, value: Seq<u8>, floor: u64, earlier: u64)
    requires
        floor < u64::MAX,
        earlier <= floor,
    ensures
        next_version(floor) > earlier,
        version_text(after_cas(m, key, value, floor), key) != Some(decimal(earlier as nat)),
        !cas_succeeds(after_cas(m, key, value, floor), key, Some(decimal(earlier as nat))),
{
    if decimal(next_version(floor) as nat) == decimal(earlier as nat) {
        lemma_decimal_injective(next_version(floor) as nat, earlier as nat);
    }
}

/// A write of one key leaves every other key as it was.
pub proof fn lemma_cas_isolated(m: ObjectMap, key: Seq<char>, other: Seq<char>, value: Seq<u8>, floor: u64)
    requires
        other != key,
    ensures
        after_cas(m, key, value, floor).contains_key(other) == m.contains_key(other),
        m.contains_key(other) ==> after_cas(m, key, value, floor)[other] == m[other],
        version_text(after_cas(m, key, value, floor), other) == version_text(m, other),
{
}

/// The version token the filesystem store gives content: its SHA-256 in hex.
pub fn content_version(value: &[u8]) -> (v: ObjectVersion)
    ensures
        v.0@ == hex(sha256_digest(value@)),
{
    ObjectVersion(sha256_hex(value))
}

/// Whether a current version (`None` when absent) is the expected one.
pub fn versions_agree(current: &Option<ObjectVersion>, expected: &Option<ObjectVersion>) -> (r: bool)
    ensures
        r == (expected_view(*current) == expected_view(*expected)),
{
    match (current, expected) {
        (None, None) => true,
        (Some(c), Some(e)) => str_eq(c.0.as_str(), e.0.as_str()),
        _ => false,
    }
}

/// The decision of a put-if-absent given the bytes already stored: write
/// (`Ok(Created)`), do nothing (`Ok(AlreadyExistsSame)`), or conflict.
pub fn decide_put_if_absent(existing: &Option<Vec<u8>>, value: &[u8]) -> (r: Result<
    PutOutcome,
    ObjectLogError,
>)
    ensures
        existing is None ==> r == Ok::<PutOutcome, ObjectLogError>(PutOutcome::Created),
        existing matches Some(e) ==> (e@ == value@ ==> r == Ok::<PutOutcome, ObjectLogError>(
            PutOutcome::AlreadyExistsSame,
        )),
        existing matches Some(e) ==> (e@ != value@ ==> r == Err::<PutOutcome, ObjectLogError>(
            ObjectLogError::ObjectConflict,
        )),
{
    match existing {
        None => Ok(PutOutcome::Created),
        Some(e) => {
            if bytes_equal(e.as_slice(), value) {
                Ok(PutOutcome::AlreadyExistsSame)
            } else {
                Err(ObjectLogError::ObjectConflict)
            }
        },
    }
}

/// The keys of a listing: the file names that begin with `prefix`, each
/// validated as an object key (the first invalid one is the error), then
/// sorted into key order.
pub fn select_listed_keys(files: Vec<String>, prefix: &str) -> (r: Result<
    Vec<ObjectKey>,
    ObjectLogError,
>)
    ensures
        (forall|i: int|
            0 <= i < files@.len() && prefix@.is_prefix_of(#[trigger] files@[i]@) ==> valid_object_key(
                files@[i]@,
            )) ==> (r matches Ok(ks) && keys_ordered(ks@.map_values(|k: ObjectKey| k@))
            && ks@.map_values(|k: ObjectKey| k@).to_multiset() == strings_view(files@).filter(
            |f: Seq<char>| prefix@.is_prefix_of(f),
        ).to_multiset()),
        r matches Err(e) ==> exists|i: int|
            0 <= i < files@.len() && prefix@.is_prefix_of(#[trigger] files@[i]@) && !valid_object_key(
                files@[i]@,
            ) && e == ObjectLogError::InvalidObjectKey(files@[i]),
{
    broadcast use vstd::seq_lib::group_to_multiset_ensures;

    let ghost fs = strings_view(files@);
    let ghost pred = |f: Seq<char>| prefix@.is_prefix_of(f);
    let mut selected: Vec<String> = Vec::new();
    let mut i: usize = 0;
    while i < files.len()
        invariant
            fs == strings_view(files@),
            pred == (|f: Seq<char>| prefix@.is_prefix_of(f)),
            i <= files@.len(),
            strings_view(selected@) == fs.take(i as int).filter(pred),
            forall|j: int| 0 <= j < selected@.len() ==> valid_object_key(#[trigger] selected@[j]@),
        decreases files@.len() - i,
    {
        proof {
            reveal_with_fuel(Seq::<Seq<char>>::filter, 1);
            assert(fs.take(i + 1).drop_last() =~= fs.take(i as int));
        }
        if starts_with(files[i].as_str(), prefix) {
            if !key_is_valid(files[i].as_str()) {
                return Err(ObjectLogError::InvalidObjectKey(files[i].clone()));
            }
            selected.push(files[i].clone());
            assert(strings_view(selected@) =~= fs.take(i as int).filter(pred).push(fs[i as int]));
        }
        i = i + 1;
    }
    assert(fs.take(files@.len() as int) =~= fs);
    let sorted = sort_strings(selected);
    let ghost sv = strings_view(sorted@);
    let mut keys: Vec<ObjectKey> = Vec::new();
    let mut j: usize = 0;
    while j < sorted.len()
        invariant
            sv == strings_view(sorted@),
            sv.to_multiset() == strings_view(selected@).to_multiset(),
            forall|t: int| 0 <= t < selected@.len() ==> valid_object_key(#[trigger] selected@[t]@),
            j <= sorted@.len(),
            sv.len() == sorted@.len(),
            keys@.len() == j,
            keys@.map_values(|k: ObjectKey| k@) == sv.take(j as int),
        decreases sorted@.len() - j,
    {
        proof {
            sv.to_multiset_ensures();
            strings_view(selected@).to_multiset_ensures();
            assert(sv.contains(sv[j as int]));
            assert(sv.to_multiset().count(sv[j as int]) > 0);
            assert(strings_view(selected@).contains(sv[j as int]));
            let t = choose|t: int| 0 <= t < selected@.len() && strings_view(selected@)[t] == sv[j as int];
            assert(valid_object_key(selected@[t]@));
            assert(valid_object_key(sv[j as int]));
        }
        let text = sorted[j].clone();
        assert(text@ == sv[j as int]);
        let k = ObjectKey::new(text);
        let ghost before = keys@;
        match k {
            Ok(k) => {
                assert(k@ == sv[j as int]);
                keys.push(k);
                assert(keys@.len() == j + 1);
                assert(keys@[j as int]@ == sv[j as int]);
                assert(forall|t: int| 0 <= t < j ==> keys@[t] == before[t]);
            },
            Err(e) => {
                return Err(e);
            },
        }
        assert(keys@.map_values(|k: ObjectKey| k@) =~= sv.take(j + 1));
        j = j + 1;
    }
    assert(sv.take(sorted@.len() as int) =~= sv);
    Ok(keys)
}

} // verus!
