//! A string-keyed map kept as a vector of entries sorted by key, so that it
//! is walked in the same order as a `BTreeMap<String, V>`.
use crate::text::{lemma_text_lt_irreflexive, lemma_text_lt_total, lemma_text_lt_transitive, str_eq, str_lt, text_lt};
use vstd::prelude::*;

verus! {

/// Whether the keys are strictly increasing (hence distinct).
pub open spec fn keys_sorted(keys: Seq<Seq<char>>) -> bool {
    forall|i: int, j: int| 0 <= i < j < keys.len() ==> text_lt(#[trigger] keys[i], #[trigger] keys[j])
}

/// A map from strings to `V` whose entries are kept in key order.
pub struct StrMap<V> {
    entries: Vec<(String, V)>,
}

/// The key of each entry.
pub open spec fn entry_keys<V>(entries: Seq<(String, V)>) -> Seq<Seq<char>> {
    entries.map_values(|e: (String, V)| e.0@)
}

/// The map that a sorted entry list stands for.
pub open spec fn entries_map<V>(entries: Seq<(String, V)>) -> Map<Seq<char>, V> {
    Map::new(
        |k: Seq<char>| entry_keys(entries).contains(k),
        |k: Seq<char>| entries[entry_keys(entries).index_of(k)].1,
    )
}

impl<V> StrMap<V> {
    /// The entries, in key order.
    pub closed spec fn entries(&self) -> Seq<(String, V)> {
        self.entries@
    }

    /// The keys, in order.
    pub open spec fn keys(&self) -> Seq<Seq<char>> {
        entry_keys(self.entries())
    }

    /// The map the entries stand for.
    pub open spec fn map(&self) -> Map<Seq<char>, V> {
        entries_map(self.entries())
    }

    /// The entries are sorted by key.
    pub open spec fn wf(&self) -> bool {
        keys_sorted(self.keys())
    }

    /// An empty map.
    pub fn new() -> (m: Self)
        ensures
            m.wf(),
            m.entries().len() == 0,
            m.map() == Map::<Seq<char>, V>::empty(),
    {
        let m = StrMap { entries: Vec::new() };
        assert(m.map() =~= Map::<Seq<char>, V>::empty());
        m
    }

    /// The number of entries.
    pub fn len(&self) -> (n: usize)
        ensures
            n == self.entries().len(),
    {
        self.entries.len()
    }

    /// The key of entry `i`.
    pub fn key_at(&self, i: usize) -> (k: &String)
        requires
            i < self.entries().len(),
        ensures
            k == self.entries()[i as int].0,
    {
        &self.entries[i].0
    }

    /// The value of entry `i`.
    pub fn value_at(&self, i: usize) -> (v: &V)
        requires
            i < self.entries().len(),
        ensures
            *v == self.entries()[i as int].1,
    {
        &self.entries[i].1
    }

    /// The index of the entry for `key`, if there is one.
    pub fn find(&self, key: &str) -> (r: Option<usize>)
        requires
            self.wf(),
        ensures
            r matches Some(i) ==> i < self.entries().len() && self.keys()[i as int] == key@,
            r is None <==> !self.map().contains_key(key@),
            r matches Some(i) ==> self.map()[key@] == self.entries()[i as int].1,
    {
        let mut i: usize = 0;
        while i < self.entries.len()
            invariant
                self.wf(),
                i <= self.entries@.len(),
                forall|j: int| 0 <= j < i ==> self.keys()[j] != key@,
            decreases self.entries@.len() - i,
        {
            if str_eq(self.entries[i].0.as_str(), key) {
                proof {
                    lemma_index_of_sorted(self.keys(), i as int);
                }
                return Some(i);
            }
            i = i + 1;
        }
        None
    }

    /// The value stored under `key`, if any.
    pub fn get(&self, key: &str) -> (r: Option<&V>)
        requires
            self.wf(),
        ensures
            r is Some <==> self.map().contains_key(key@),
            r matches Some(v) ==> *v == self.map()[key@],
    {
        match self.find(key) {
            Some(i) => Some(&self.entries[i].1),
            None => None,
        }
    }

    /// Store `value` under `key`, replacing any previous value.
    pub fn insert(&mut self, key: String, value: V)
        requires
            old(self).wf(),
        ensures
            final(self).wf(),
            final(self).map() == old(self).map().insert(key@, value),
    {
        let ghost k = key@;
        let ghost old_entries = self.entries@;
        let n = self.entries.len();
        let mut p: usize = 0;
        while p < n
            invariant_except_break
                n == self.entries@.len(),
                self.entries@ == old_entries,
                k == key@,
                p <= n,
                forall|j: int| 0 <= j < p ==> text_lt(#[trigger] entry_keys(old_entries)[j], k),
            ensures
                n == self.entries@.len(),
                self.entries@ == old_entries,
                k == key@,
                p <= n,
                forall|j: int| 0 <= j < p ==> text_lt(#[trigger] entry_keys(old_entries)[j], k),
                p < n ==> !text_lt(entry_keys(old_entries)[p as int], k),
            decreases n - p,
        {
            let lt = str_lt(self.entries[p].0.as_str(), key.as_str());
            assert(entry_keys(old_entries)[p as int] == self.entries@[p as int].0@);
            if !lt {
                break;
            }
            p = p + 1;
        }
        let ghost ks = entry_keys(old_entries);
        if p < n && str_eq(self.entries[p].0.as_str(), key.as_str()) {
            self.entries.set(p, (key, value));
            proof {
                let ks2 = entry_keys(self.entries@);
                assert(ks2 =~= ks);
                lemma_index_of_sorted(ks, p as int);
                assert forall|kk: Seq<char>| #[trigger] ks2.contains(kk) implies
                    self.entries@[ks2.index_of(kk)].1 == old_entries.update(p as int, (key, value))[ks.index_of(kk)].1
                by {}
                assert(self.map() =~= entries_map(old_entries).insert(k, value)) by {
                    assert forall|kk: Seq<char>| #[trigger] ks2.contains(kk) implies self.map()[kk]
                        == entries_map(old_entries).insert(k, value)[kk] by {
                        let j = ks.index_of(kk);
                        lemma_index_of_sorted(ks, ks.index_of(kk));
                        if kk == k {
                        } else {
                        }
                    }
                }
            }
        } else {
            self.entries.insert(p, (key, value));
            proof {
                let ks2 = entry_keys(self.entries@);
                assert(ks2 =~= ks.insert(p as int, k));
                if p < n {
                    lemma_text_lt_total(k, ks[p as int]);
                }
                assert(keys_sorted(ks2)) by {
                    assert forall|i: int, j: int| 0 <= i < j < ks2.len() implies text_lt(
                        #[trigger] ks2[i],
                        #[trigger] ks2[j],
                    ) by {
                        if j < p {
                            assert(ks2[i] == ks[i] && ks2[j] == ks[j]);
                        } else if j == p {
                            assert(ks2[i] == ks[i]);
                        } else if i == p {
                            assert(ks2[j] == ks[j - 1]);
                            if j - 1 > p {
                                lemma_text_lt_transitive(k, ks[p as int], ks[j - 1]);
                            }
                        } else if i < p {
                            assert(ks2[i] == ks[i] && ks2[j] == ks[j - 1]);
                        } else {
                            assert(ks2[i] == ks[i - 1] && ks2[j] == ks[j - 1]);
                        }
                    }
                }
                assert forall|kk: Seq<char>| #[trigger] ks2.contains(kk) implies self.map()[kk]
                    == entries_map(old_entries).insert(k, value)[kk] by {
                    let j2 = ks2.index_of(kk);
                    lemma_index_of_sorted(ks2, j2);
                    if kk == k {
                        lemma_index_of_sorted(ks2, p as int);
                    } else {
                        let j = if j2 < p { j2 } else { j2 - 1 };
                        assert(ks[j] == kk);
                        lemma_index_of_sorted(ks, j);
                    }
                }
                assert forall|kk: Seq<char>| ks2.contains(kk) <==> (ks.contains(kk) || kk == k) by {
                    if ks.contains(kk) {
                        let j = ks.index_of(kk);
                        if j < p {
                            assert(ks2[j] == kk);
                        } else {
                            assert(ks2[j + 1] == kk);
                        }
                    }
                    if ks2.contains(kk) && kk != k {
                        let j2 = ks2.index_of(kk);
                        if j2 < p {
                            assert(ks[j2] == kk);
                        } else {
                            assert(ks[j2 - 1] == kk);
                        }
                    }
                    if kk == k {
                        assert(ks2[p as int] == k);
                    }
                }
                assert(self.map() =~= entries_map(old_entries).insert(k, value));
            }
        }
    }

    /// Remove the entry for `key`, if any, handing back its value.
    pub fn remove(&mut self, key: &str) -> (r: Option<V>)
        requires
            old(self).wf(),
        ensures
            final(self).wf(),
            final(self).map() == old(self).map().remove(key@),
            r is Some <==> old(self).map().contains_key(key@),
            r matches Some(v) ==> v == old(self).map()[key@],
    {
        let ghost old_entries = self.entries@;
        let ghost ks = entry_keys(old_entries);
        match self.find(key) {
            None => {
                assert(self.map() =~= entries_map(old_entries).remove(key@));
                None
            },
            Some(p) => {
                let (_, v) = self.entries.remove(p);
                proof {
                    let ks2 = entry_keys(self.entries@);
                    assert(ks2 =~= ks.remove(p as int));
                    assert(keys_sorted(ks2)) by {
                        assert forall|i: int, j: int| 0 <= i < j < ks2.len() implies text_lt(
                            #[trigger] ks2[i],
                            #[trigger] ks2[j],
                        ) by {
                            if j < p {
                                assert(ks2[i] == ks[i] && ks2[j] == ks[j]);
                            } else if i < p {
                                assert(ks2[i] == ks[i] && ks2[j] == ks[j + 1]);
                            } else {
                                assert(ks2[i] == ks[i + 1] && ks2[j] == ks[j + 1]);
                            }
                        }
                    }
                    assert forall|kk: Seq<char>| ks2.contains(kk) <==> (ks.contains(kk) && kk
                        != key@) by {
                        if ks.contains(kk) && kk != key@ {
                            let j = ks.index_of(kk);
                            if j < p {
                                assert(ks2[j] == kk);
                            } else {
                                assert(j != p);
                                assert(ks2[j - 1] == kk);
                            }
                        }
                        if ks2.contains(kk) {
                            let j2 = ks2.index_of(kk);
                            let j = if j2 < p { j2 } else { j2 + 1 };
                            assert(ks[j] == kk);
                            lemma_index_of_sorted(ks, p as int);
                            if kk == key@ {
                                lemma_index_of_sorted(ks, j);
                            }
                        }
                    }
                    assert forall|kk: Seq<char>| #[trigger] ks2.contains(kk) implies self.map()[kk]
                        == entries_map(old_entries).remove(key@)[kk] by {
                        let j2 = ks2.index_of(kk);
                        lemma_index_of_sorted(ks2, j2);
                        let j = if j2 < p { j2 } else { j2 + 1 };
                        assert(ks[j] == kk);
                        lemma_index_of_sorted(ks, j);
                    }
                    assert(self.map() =~= entries_map(old_entries).remove(key@));
                }
                Some(v)
            },
        }
    }
}

/// In a sorted key list, the key at `i` is found at `i`.
pub proof fn lemma_index_of_sorted(ks: Seq<Seq<char>>, i: int)
    requires
        keys_sorted(ks),
        0 <= i < ks.len(),
    ensures
        ks.contains(ks[i]),
        ks.index_of(ks[i]) == i,
{
    assert(ks.contains(ks[i]));
    let j = ks.index_of(ks[i]);
    if j < i {
        lemma_text_lt_irreflexive(ks[i]);
        assert(text_lt(ks[j], ks[i]));
    } else if j > i {
        lemma_text_lt_irreflexive(ks[i]);
        assert(text_lt(ks[i], ks[j]));
    }
}

/// Whether the keys never decrease.
pub open spec fn keys_ordered(keys: Seq<Seq<char>>) -> bool {
    forall|i: int, j: int| 0 <= i < j < keys.len() ==> !text_lt(#[trigger] keys[j], #[trigger] keys[i])
}

/// The characters of each string.
pub open spec fn strings_view(v: Seq<String>) -> Seq<Seq<char>> {
    v.map_values(|s: String| s@)
}

/// Sort strings into `String` order (insertion sort).
pub fn sort_strings(v: Vec<String>) -> (r: Vec<String>)
    ensures
        keys_ordered(strings_view(r@)),
        strings_view(r@).to_multiset() == strings_view(v@).to_multiset(),
{
    broadcast use vstd::seq_lib::group_to_multiset_ensures;

    let ghost input = strings_view(v@);
    let mut out: Vec<String> = Vec::new();
    let mut rest = v;
    let ghost consumed: Seq<Seq<char>> = Seq::empty();
    let mut i: usize = 0;
    let n = rest.len();
    while i < n
        invariant
            n == input.len(),
            strings_view(rest@) == input,
            i <= n,
            keys_ordered(strings_view(out@)),
            strings_view(out@).to_multiset() == input.take(i as int).to_multiset(),
        decreases n - i,
    {
        let x = rest[i].clone();
        let m = out.len();
        let mut p: usize = 0;
        while p < m
            invariant_except_break
                m == out@.len(),
                p <= m,
                forall|j: int| 0 <= j < p ==> !text_lt(x@, #[trigger] strings_view(out@)[j]),
            ensures
                m == out@.len(),
                p <= m,
                forall|j: int| 0 <= j < p ==> !text_lt(x@, #[trigger] strings_view(out@)[j]),
                p < m ==> text_lt(x@, strings_view(out@)[p as int]),
            decreases m - p,
        {
            if str_lt(x.as_str(), out[p].as_str()) {
                break;
            }
            p = p + 1;
        }
        let ghost before = strings_view(out@);
        out.insert(p, x);
        proof {
            let after = strings_view(out@);
            assert(after =~= before.insert(p as int, x@));
            assert(keys_ordered(after)) by {
                assert forall|a: int, b: int| 0 <= a < b < after.len() implies !text_lt(
                    #[trigger] after[b],
                    #[trigger] after[a],
                ) by {
                    if b < p {
                        assert(after[a] == before[a] && after[b] == before[b]);
                    } else if b == p {
                        assert(after[a] == before[a]);
                    } else if a == p {
                        assert(after[b] == before[b - 1]);
                        if text_lt(before[b - 1], x@) {
                            if b - 1 > p {
                                assert(!text_lt(before[b - 1], before[p as int]));
                                lemma_text_lt_transitive(before[b - 1], x@, before[p as int]);
                            }
                            lemma_text_lt_asymmetric(x@, before[p as int]);
                        }
                    } else if a < p {
                        assert(after[a] == before[a] && after[b] == before[b - 1]);
                        if text_lt(after[b], after[a]) {
                            lemma_text_lt_total_or_eq(x@, before[a]);
                            if text_lt(before[a], x@) {
                                lemma_text_lt_transitive(before[b - 1], before[a], x@);
                                if b - 1 == p {
                                    lemma_text_lt_asymmetric(x@, before[p as int]);
                                } else {
                                    assert(!text_lt(before[b - 1], before[p as int]));
                                    lemma_text_lt_transitive(before[b - 1], x@, before[p as int]);
                                }
                            }
                        }
                    } else {
                        assert(after[a] == before[a - 1] && after[b] == before[b - 1]);
                    }
                }
            }
            assert(after.remove(p as int) =~= before);
            assert(input.take(i + 1) =~= input.take(i as int).push(input[i as int]));
            assert(x@ == input[i as int]);
            input.take(i as int).to_multiset_ensures();
            assert(input.take(i as int).push(input[i as int]).to_multiset() =~= input.take(
                i as int,
            ).to_multiset().insert(input[i as int]));
            assert(after.to_multiset() =~= before.to_multiset().insert(x@)) by {
                after.to_multiset_ensures();
                input.take(i as int).to_multiset_ensures();
                assert(after.contains(x@)) by {
                    assert(after[p as int] == x@);
                }
                assert(after.remove(p as int).to_multiset() =~= after.to_multiset().remove(
                    after[p as int],
                ));
                assert(after.to_multiset().count(x@) > 0);
            }
        }
        i = i + 1;
    }
    assert(input.take(n as int) =~= input);
    out
}

proof fn lemma_text_lt_asymmetric(a: Seq<char>, b: Seq<char>)
    requires
        text_lt(a, b),
    ensures
        !text_lt(b, a),
{
    if text_lt(b, a) {
        lemma_text_lt_transitive(a, b, a);
        lemma_text_lt_irreflexive(a);
    }
}

proof fn lemma_text_lt_total_or_eq(a: Seq<char>, b: Seq<char>)
    ensures
        a == b || text_lt(a, b) || text_lt(b, a),
{
    if a != b {
        lemma_text_lt_total(a, b);
    }
}

/// Sorted keys are distinct.
pub proof fn lemma_sorted_keys_distinct(ks: Seq<Seq<char>>)
    requires
        keys_sorted(ks),
    ensures
        ks.no_duplicates(),
{
    assert forall|i: int, j: int| 0 <= i < ks.len() && 0 <= j < ks.len() && i != j implies ks[i]
        != ks[j] by {
        if i < j {
            lemma_text_lt_irreflexive(ks[i]);
            assert(text_lt(ks[i], ks[j]));
        } else {
            lemma_text_lt_irreflexive(ks[j]);
            assert(text_lt(ks[j], ks[i]));
        }
    }
}

/// The elements of `v` in reverse order.
pub fn reversed<T>(v: Vec<T>) -> (r: Vec<T>)
    ensures
        r@ == v@.reverse(),
{
    let ghost s = v@;
    let mut v = v;
    let mut r: Vec<T> = Vec::new();
    while v.len() > 0
        invariant
            v@ == s.take(v@.len() as int),
            v@.len() <= s.len(),
            r@ == s.skip(v@.len() as int).reverse(),
        decreases v@.len(),
    {
        let ghost n = v@.len();
        let x = v.pop().unwrap();
        r.push(x);
        assert(v@ =~= s.take(n - 1));
        assert(r@ =~= s.skip(n - 1).reverse());
    }
    assert(s.skip(0) =~= s);
    r
}

} // verus!
