//! A hash map from names to locations, with buckets of entries and a hash function of the
//! caller's choice.

use vstd::prelude::*;
use crate::hashing::LocationInformation;

verus! {

pub type Entry = Vec<(String, LocationInformation)>;

pub type LocationCache<F> = HashMap<F>;

pub struct HashMap<F: Fn(&String) -> usize> {
    hash_fn: Box<F>,
    store: Vec<Entry>,
    pub length: usize,
}

/// `hash_fn` takes every string, and gives one hash for all strings of the same characters.
pub open spec fn is_hash<F: Fn(&String) -> usize>(hash_fn: F) -> bool {
    &&& forall|k: &String| call_requires(hash_fn, (k,))
    &&& forall|k1: &String, k2: &String, h1: usize, h2: usize|
        k1@ == k2@ && #[trigger] call_ensures(hash_fn, (k1,), h1) && #[trigger] call_ensures(
            hash_fn,
            (k2,),
            h2,
        ) ==> h1 == h2
}

/// The number of entries in all of `store`.
pub open spec fn entry_total(store: Seq<Entry>) -> nat
    decreases store.len(),
{
    if store.len() == 0 {
        0
    } else {
        entry_total(store.drop_last()) + store.last()@.len()
    }
}

/// Where one bucket changes, the number of entries changes as its length does.
pub proof fn lemma_entry_total(before: Seq<Entry>, after: Seq<Entry>, idx: int)
    requires
        0 <= idx < before.len(),
        after.len() == before.len(),
        forall|b: int| 0 <= b < before.len() && b != idx ==> after[b] == before[b],
    ensures
        entry_total(after) + before[idx]@.len() == entry_total(before) + after[idx]@.len(),
        entry_total(before) >= before[idx]@.len(),
    decreases before.len(),
{
    if idx == before.len() - 1 {
        assert(after.drop_last() =~= before.drop_last());
    } else {
        lemma_entry_total(before.drop_last(), after.drop_last(), idx);
    }
}

/// Without entries in any bucket there are no entries.
pub proof fn lemma_entry_total_empty(store: Seq<Entry>)
    requires
        forall|b: int| 0 <= b < store.len() ==> (#[trigger] store[b])@.len() == 0,
    ensures
        entry_total(store) == 0,
    decreases store.len(),
{
    if store.len() > 0 {
        lemma_entry_total_empty(store.drop_last());
    }
}

impl<F: Fn(&String) -> usize> HashMap<F> {
    /// The buckets of the map.
    pub closed spec fn buckets(&self) -> Seq<Seq<(String, LocationInformation)>> {
        Seq::new(self.store@.len(), |b: int| self.store@[b]@)
    }

    /// The value of the field `length`.
    pub closed spec fn count(&self) -> nat {
        self.length as nat
    }

    /// The value of the field `length`.
    pub fn len(&self) -> (n: usize)
        ensures
            n == self.count(),
    {
        self.length
    }

    /// The map holds an entry with the key `key`.
    pub open spec fn has(&self, key: Seq<char>) -> bool {
        exists|b: int, i: int|
            0 <= b < self.buckets().len() && 0 <= i < self.buckets()[b].len()
                && (#[trigger] self.buckets()[b][i]).0@ == key
    }

    /// The location `value` is stored under the key `key`.
    pub open spec fn holds(&self, key: Seq<char>, value: LocationInformation) -> bool {
        exists|b: int, i: int|
            0 <= b < self.buckets().len() && 0 <= i < self.buckets()[b].len()
                && (#[trigger] self.buckets()[b][i]).0@ == key && self.buckets()[b][i].1 == value
    }

    /// There is a bucket, `length` counts the entries, no key occurs twice, and every entry lies
    /// in the bucket that the hash of its key names.
    pub closed spec fn wf(&self) -> bool {
        &&& self.store@.len() > 0
        &&& self.length == entry_total(self.store@)
        &&& is_hash(*self.hash_fn)
        &&& forall|b1: int, i1: int, b2: int, i2: int|
            0 <= b1 < self.store@.len() && 0 <= i1 < self.store@[b1]@.len() && 0 <= b2
                < self.store@.len() && 0 <= i2 < self.store@[b2]@.len() && (b1 != b2 || i1 != i2)
                ==> (#[trigger] self.store@[b1]@[i1]).0@ != (#[trigger] self.store@[b2]@[i2]).0@
        &&& forall|b: int, i: int, k: &String, h: usize|
            0 <= b < self.store@.len() && 0 <= i < self.store@[b]@.len() && k@
                == (#[trigger] self.store@[b]@[i]).0@ && #[trigger] call_ensures(
                *self.hash_fn,
                (k,),
                h,
            ) ==> b == (h & (self.store@.len() - 1) as usize)
    }

    /// A key has one value: two locations stored under the same key are the same location.
    pub proof fn lemma_one_value(
        &self,
        key: Seq<char>,
        first: LocationInformation,
        second: LocationInformation,
    )
        requires
            self.wf(),
            self.holds(key, first),
            self.holds(key, second),
        ensures
            first == second,
    {
        let (b1, i1) = choose|b: int, i: int|
            0 <= b < self.buckets().len() && 0 <= i < self.buckets()[b].len()
                && (#[trigger] self.buckets()[b][i]).0@ == key && self.buckets()[b][i].1 == first;
        let (b2, i2) = choose|b: int, i: int|
            0 <= b < self.buckets().len() && 0 <= i < self.buckets()[b].len()
                && (#[trigger] self.buckets()[b][i]).0@ == key && self.buckets()[b][i].1 == second;
        assert(self.store@[b1]@[i1].0@ == self.store@[b2]@[i2].0@);
        if b1 != b2 || i1 != i2 {
            assert(false);
        }
    }

    /// A map with a key holds an entry.
    pub proof fn lemma_count_has(&self, key: Seq<char>)
        requires
            self.wf(),
            self.has(key),
        ensures
            self.count() >= 1,
    {
        let (b, i) = choose|b: int, i: int|
            0 <= b < self.buckets().len() && 0 <= i < self.buckets()[b].len()
                && (#[trigger] self.buckets()[b][i]).0@ == key;
        lemma_entry_total(self.store@, self.store@, b);
    }

    /// A key that has a value is a key of the map, and a key of the map has a value.
    pub proof fn lemma_has_holds(&self, key: Seq<char>)
        ensures
            self.has(key) <==> exists|value: LocationInformation| self.holds(key, value),
    {
        if self.has(key) {
            let (b, i) = choose|b: int, i: int|
                0 <= b < self.buckets().len() && 0 <= i < self.buckets()[b].len()
                    && (#[trigger] self.buckets()[b][i]).0@ == key;
            assert(self.holds(key, self.buckets()[b][i].1));
        }
    }

    /// An empty map of `length` buckets.
    pub fn new(hash_fn: Box<F>, length: usize) -> (map: HashMap<F>)
        requires
            length > 0,
            is_hash(*hash_fn),
        ensures
            map.wf(),
            map.count() == 0,
            forall|key: Seq<char>| !map.has(key),
    {
        let mut store: Vec<Entry> = Vec::new();
        let mut b: usize = 0;
        while b < length
            invariant
                b <= length,
                store@.len() == b,
                forall|k: int| 0 <= k < b ==> (#[trigger] store@[k])@.len() == 0,
            decreases length - b,
        {
            store.push(Vec::new());
            b += 1;
        }
        proof {
            lemma_entry_total_empty(store@);
        }
        HashMap { hash_fn: hash_fn, length: 0, store: store }
    }

    /// The bucket in which `key` belongs.
    fn bucket_of(&self, key: &String) -> (idx: usize)
        requires
            self.wf(),
        ensures
            idx < self.buckets().len(),
            forall|b: int, i: int|
                0 <= b < self.buckets().len() && 0 <= i < self.buckets()[b].len()
                    && (#[trigger] self.buckets()[b][i]).0@ == key@ ==> b == idx,
            forall|k: &String, h: usize|
                k@ == key@ && #[trigger] call_ensures(*self.hash_fn, (k,), h) ==> idx == (h & (
                self.buckets().len() - 1) as usize),
    {
        let h = (self.hash_fn)(key);
        let mask = self.store.len() - 1;
        let idx = h & mask;
        assert(h & mask <= mask) by (bit_vector);
        proof {
            assert forall|b: int, i: int|
                0 <= b < self.buckets().len() && 0 <= i < self.buckets()[b].len()
                    && (#[trigger] self.buckets()[b][i]).0@ == key@ implies b == idx by {
                assert(self.buckets()[b][i] == self.store@[b]@[i]);
            }
        }
        idx
    }

    /// The place of `key` in bucket `idx`.
    fn position(&self, idx: usize, key: &String) -> (pos: Option<usize>)
        requires
            idx < self.buckets().len(),
        ensures
            pos matches Some(p) ==> p < self.buckets()[idx as int].len()
                && self.buckets()[idx as int][p as int].0@ == key@,
            pos is None ==> forall|i: int|
                0 <= i < self.buckets()[idx as int].len() ==> (
                #[trigger] self.buckets()[idx as int][i]).0@ != key@,
    {
        let bucket = &self.store[idx];
        let mut i: usize = 0;
        while i < bucket.len()
            invariant
                i <= bucket@.len(),
                bucket@ == self.buckets()[idx as int],
                forall|j: int| 0 <= j < i ==> (#[trigger] bucket@[j]).0@ != key@,
            decreases bucket@.len() - i,
        {
            if bucket[i].0 == *key {
                return Some(i);
            }
            i += 1;
        }
        None
    }

    /// The location stored under `key`: the one location that the map holds for it, and
    /// nothing where the key is no key of the map.
    pub fn get(&self, key: &String) -> (value: Option<LocationInformation>)
        requires
            self.wf(),
        ensures
            value is Some <==> self.has(key@),
            value matches Some(v) ==> self.holds(key@, v),
            forall|v: LocationInformation| self.holds(key@, v) ==> value == Some(v),
    {
        let idx = self.bucket_of(key);
        proof {
            assert forall|v: LocationInformation| self.holds(key@, v) implies self.has(key@) by {
                self.lemma_has_holds(key@);
            }
            assert forall|v: LocationInformation, w: LocationInformation|
                self.holds(key@, v) && self.holds(key@, w) implies v == w by {
                self.lemma_one_value(key@, v, w);
            }
        }
        match self.position(idx, key) {
            Some(pos) => {
                assert(self.buckets()[idx as int][pos as int].0@ == key@);
                Some(self.store[idx][pos].1.clone())
            },
            None => None,
        }
    }

    /// Takes the entry with the key `key` from the map, and returns its location.
    pub fn remove(&mut self, key: String) -> (value: Option<LocationInformation>)
        requires
            old(self).wf(),
        ensures
            final(self).wf(),
            value is Some <==> old(self).has(key@),
            value matches Some(v) ==> old(self).holds(key@, v),
            forall|v: LocationInformation| old(self).holds(key@, v) ==> value == Some(v),
            !final(self).has(key@),
            forall|other: Seq<char>, v: LocationInformation|
                other != key@ ==> (final(self).holds(other, v) <==> old(self).holds(other, v)),
            forall|other: Seq<char>|
                other != key@ ==> (#[trigger] final(self).has(other) <==> old(self).has(other)),
            old(self).has(key@) ==> old(self).count() >= 1 && final(self).count() + 1 == old(self).count(),
            !old(self).has(key@) ==> final(self).count() == old(self).count(),
    {
        let idx = self.bucket_of(&key);
        let ghost name = key@;
        proof {
            assert forall|v: LocationInformation| self.holds(name, v) implies self.has(name) by {
                self.lemma_has_holds(name);
            }
            assert forall|v: LocationInformation, w: LocationInformation|
                self.holds(name, v) && self.holds(name, w) implies v == w by {
                self.lemma_one_value(name, v, w);
            }
        }
        match self.position(idx, &key) {
            Some(pos) => {
                assert(old(self).buckets()[idx as int][pos as int].0@ == key@);
                proof {
                    lemma_entry_total(old(self).store@, old(self).store@, idx as int);
                }
                self.length -= 1;
                let entry = self.store[idx].remove(pos);
                proof {
                    let before = old(self).store@;
                    let after = self.store@;
                    assert(after.len() == before.len());
                    assert forall|b: int, i: int|
                        0 <= b < after.len() && 0 <= i < after[b]@.len() implies exists|j: int|
                        0 <= j < before[b]@.len() && before[b]@[j] == #[trigger] after[b]@[i] && (
                        b == idx ==> j == if i < pos {
                            i
                        } else {
                            i + 1
                        }) && (b != idx ==> j == i) by {
                        if b == idx {
                            let j = if i < pos {
                                i
                            } else {
                                i + 1
                            };
                            assert(before[b]@[j] == after[b]@[i]);
                        } else {
                            assert(before[b]@[i] == after[b]@[i]);
                        }
                    }
                    lemma_removed::<F>(old(self), self, idx as int, pos as int, key@);
                    lemma_same_keys::<F>(old(self), self, name);
                }
                Some(entry.1)
            },
            _ => {
                assert forall|other: Seq<char>, v: LocationInformation| other != key@ implies (
                self.holds(other, v) <==> old(self).holds(other, v)) by {}
                proof {
                    lemma_same_keys::<F>(old(self), self, name);
                }
                None
            },
        }
    }

    /// Stores `value` under `key`, in place of what was stored there.
    pub fn insert(&mut self, key: String, value: LocationInformation)
        requires
            old(self).wf(),
            old(self).count() < usize::MAX,
        ensures
            final(self).wf(),
            final(self).holds(key@, value),
            final(self).has(key@),
            forall|other: Seq<char>, v: LocationInformation|
                other != key@ ==> (final(self).holds(other, v) <==> old(self).holds(other, v)),
            forall|other: Seq<char>|
                other != key@ ==> (#[trigger] final(self).has(other) <==> old(self).has(other)),
            final(self).count() == if old(self).has(key@) {
                old(self).count()
            } else {
                old(self).count() + 1
            },
    {
        let idx = self.bucket_of(&key);
        let ghost name = key@;
        match self.position(idx, &key) {
            Some(pos) => {
                assert(old(self).buckets()[idx as int][pos as int].0@ == key@);
                self.store[idx][pos] = (key, value);
                proof {
                    lemma_replaced::<F>(old(self), self, idx as int, pos as int, key@, value);
                }
            },
            None => {
                self.store[idx].push((key, value));
                self.length += 1;
                proof {
                    lemma_added::<F>(old(self), self, idx as int, key@, value);
                }
            },
        }
        proof {
            lemma_same_keys::<F>(old(self), self, name);
            self.lemma_has_holds(name);
        }
    }
}

/// Where two maps hold the same locations under every key but `key`, they have the same
/// keys but for `key`.
proof fn lemma_same_keys<F: Fn(&String) -> usize>(
    before: &HashMap<F>,
    after: &HashMap<F>,
    key: Seq<char>,
)
    requires
        forall|other: Seq<char>, v: LocationInformation|
            other != key ==> (after.holds(other, v) <==> before.holds(other, v)),
    ensures
        forall|other: Seq<char>|
            other != key ==> (#[trigger] after.has(other) <==> before.has(other)),
{
    assert forall|other: Seq<char>| other != key implies (#[trigger] after.has(other)
        <==> before.has(other)) by {
        after.lemma_has_holds(other);
        before.lemma_has_holds(other);
        if after.has(other) {
            let v = choose|v: LocationInformation| after.holds(other, v);
            assert(before.holds(other, v));
        }
        if before.has(other) {
            let v = choose|v: LocationInformation| before.holds(other, v);
            assert(after.holds(other, v));
        }
    }
}

/// What holds of a map after the entry at place `pos` of bucket `idx` was taken out.
proof fn lemma_removed<F: Fn(&String) -> usize>(
    before: &HashMap<F>,
    after: &HashMap<F>,
    idx: int,
    pos: int,
    key: Seq<char>,
)
    requires
        before.wf(),
        0 <= idx < before.store@.len(),
        0 <= pos < before.store@[idx]@.len(),
        before.store@[idx]@[pos].0@ == key,
        after.hash_fn == before.hash_fn,
        after.length == before.length - 1,
        after.store@.len() == before.store@.len(),
        after.store@[idx]@ == before.store@[idx]@.remove(pos),
        forall|b: int| 0 <= b < before.store@.len() && b != idx ==> after.store@[b] == before.store@[b],
    ensures
        after.wf(),
        before.has(key),
        before.holds(key, before.store@[idx]@[pos].1),
        !after.has(key),
        forall|other: Seq<char>, v: LocationInformation|
            other != key ==> (after.holds(other, v) <==> before.holds(other, v)),
{
    let old_store = before.store@;
    let new_store = after.store@;
    lemma_entry_total(old_store, new_store, idx);
    assert(before.buckets()[idx][pos] == old_store[idx]@[pos]);
    let back = |b: int, i: int| if b == idx && i >= pos { i + 1 } else { i };
    assert forall|b: int, i: int| 0 <= b < new_store.len() && 0 <= i < new_store[b]@.len() implies 0
        <= back(b, i) < old_store[b]@.len() && #[trigger] new_store[b]@[i] == old_store[b]@[back(
        b,
        i,
    )] by {}
    assert forall|b1: int, i1: int, b2: int, i2: int|
        0 <= b1 < new_store.len() && 0 <= i1 < new_store[b1]@.len() && 0 <= b2 < new_store.len()
            && 0 <= i2 < new_store[b2]@.len() && (b1 != b2 || i1 != i2) implies (
    #[trigger] new_store[b1]@[i1]).0@ != (#[trigger] new_store[b2]@[i2]).0@ by {
        assert(new_store[b1]@[i1] == old_store[b1]@[back(b1, i1)]);
        assert(new_store[b2]@[i2] == old_store[b2]@[back(b2, i2)]);
    }
    assert forall|b: int, i: int, k: &String, h: usize|
        0 <= b < new_store.len() && 0 <= i < new_store[b]@.len() && k@
            == (#[trigger] new_store[b]@[i]).0@ && #[trigger] call_ensures(
            *after.hash_fn,
            (k,),
            h,
        ) implies b == (h & (new_store.len() - 1) as usize) by {
        assert(new_store[b]@[i] == old_store[b]@[back(b, i)]);
    }
    if after.has(key) {
        let (b, i) = choose|b: int, i: int|
            0 <= b < after.buckets().len() && 0 <= i < after.buckets()[b].len()
                && (#[trigger] after.buckets()[b][i]).0@ == key;
        assert(after.buckets()[b][i] == new_store[b]@[i]);
        assert(new_store[b]@[i] == old_store[b]@[back(b, i)]);
        assert(old_store[b]@[back(b, i)].0@ != old_store[idx]@[pos].0@);
    }
    assert forall|other: Seq<char>, v: LocationInformation| other != key implies (after.holds(
        other,
        v,
    ) <==> before.holds(other, v)) by {
        if after.holds(other, v) {
            let (b, i) = choose|b: int, i: int|
                0 <= b < after.buckets().len() && 0 <= i < after.buckets()[b].len()
                    && (#[trigger] after.buckets()[b][i]).0@ == other && after.buckets()[b][i].1
                    == v;
            assert(after.buckets()[b][i] == new_store[b]@[i]);
            assert(before.buckets()[b][back(b, i)] == old_store[b]@[back(b, i)]);
        }
        if before.holds(other, v) {
            let (b, i) = choose|b: int, i: int|
                0 <= b < before.buckets().len() && 0 <= i < before.buckets()[b].len()
                    && (#[trigger] before.buckets()[b][i]).0@ == other && before.buckets()[b][i].1
                    == v;
            assert(before.buckets()[b][i] == old_store[b]@[i]);
            let j = if b == idx && i > pos {
                i - 1
            } else {
                i
            };
            assert(after.buckets()[b][j] == new_store[b]@[j]);
            assert(new_store[b]@[j] == old_store[b]@[i]);
        }
    }
}

/// What holds of a map after the entry at place `pos` of bucket `idx` got another location.
proof fn lemma_replaced<F: Fn(&String) -> usize>(
    before: &HashMap<F>,
    after: &HashMap<F>,
    idx: int,
    pos: int,
    key: Seq<char>,
    value: LocationInformation,
)
    requires
        before.wf(),
        0 <= idx < before.store@.len(),
        0 <= pos < before.store@[idx]@.len(),
        before.store@[idx]@[pos].0@ == key,
        after.hash_fn == before.hash_fn,
        after.length == before.length,
        after.store@.len() == before.store@.len(),
        after.store@[idx]@.len() == before.store@[idx]@.len(),
        after.store@[idx]@[pos].0@ == key,
        after.store@[idx]@[pos].1 == value,
        forall|i: int|
            0 <= i < before.store@[idx]@.len() && i != pos ==> after.store@[idx]@[i]
                == before.store@[idx]@[i],
        forall|b: int| 0 <= b < before.store@.len() && b != idx ==> after.store@[b] == before.store@[b],
    ensures
        after.wf(),
        before.has(key),
        after.holds(key, value),
        forall|other: Seq<char>, v: LocationInformation|
            other != key ==> (after.holds(other, v) <==> before.holds(other, v)),
{
    let old_store = before.store@;
    let new_store = after.store@;
    lemma_entry_total(old_store, new_store, idx);
    assert(before.buckets()[idx][pos] == old_store[idx]@[pos]);
    assert(after.buckets()[idx][pos] == new_store[idx]@[pos]);
    assert forall|b: int, i: int| 0 <= b < new_store.len() && 0 <= i < new_store[b]@.len() implies i
        < old_store[b]@.len() && (#[trigger] new_store[b]@[i]).0@ == old_store[b]@[i].0@ by {}
    assert forall|b1: int, i1: int, b2: int, i2: int|
        0 <= b1 < new_store.len() && 0 <= i1 < new_store[b1]@.len() && 0 <= b2 < new_store.len()
            && 0 <= i2 < new_store[b2]@.len() && (b1 != b2 || i1 != i2) implies (
    #[trigger] new_store[b1]@[i1]).0@ != (#[trigger] new_store[b2]@[i2]).0@ by {
        assert(new_store[b1]@[i1].0@ == old_store[b1]@[i1].0@);
        assert(new_store[b2]@[i2].0@ == old_store[b2]@[i2].0@);
    }
    assert forall|b: int, i: int, k: &String, h: usize|
        0 <= b < new_store.len() && 0 <= i < new_store[b]@.len() && k@
            == (#[trigger] new_store[b]@[i]).0@ && #[trigger] call_ensures(
            *after.hash_fn,
            (k,),
            h,
        ) implies b == (h & (new_store.len() - 1) as usize) by {
        assert(new_store[b]@[i].0@ == old_store[b]@[i].0@);
    }
    assert forall|other: Seq<char>, v: LocationInformation| other != key implies (after.holds(
        other,
        v,
    ) <==> before.holds(other, v)) by {
        if after.holds(other, v) {
            let (b, i) = choose|b: int, i: int|
                0 <= b < after.buckets().len() && 0 <= i < after.buckets()[b].len()
                    && (#[trigger] after.buckets()[b][i]).0@ == other && after.buckets()[b][i].1
                    == v;
            assert(after.buckets()[b][i] == new_store[b]@[i]);
            assert(before.buckets()[b][i] == old_store[b]@[i]);
        }
        if before.holds(other, v) {
            let (b, i) = choose|b: int, i: int|
                0 <= b < before.buckets().len() && 0 <= i < before.buckets()[b].len()
                    && (#[trigger] before.buckets()[b][i]).0@ == other && before.buckets()[b][i].1
                    == v;
            assert(before.buckets()[b][i] == old_store[b]@[i]);
            assert(after.buckets()[b][i] == new_store[b]@[i]);
        }
    }
}

/// What holds of a map after an entry with a new key was put at the end of bucket `idx`.
proof fn lemma_added<F: Fn(&String) -> usize>(
    before: &HashMap<F>,
    after: &HashMap<F>,
    idx: int,
    key: Seq<char>,
    value: LocationInformation,
)
    requires
        before.wf(),
        0 <= idx < before.store@.len(),
        forall|b: int, i: int|
            0 <= b < before.buckets().len() && 0 <= i < before.buckets()[b].len()
                && (#[trigger] before.buckets()[b][i]).0@ == key ==> b == idx,
        forall|i: int|
            0 <= i < before.buckets()[idx].len() ==> (#[trigger] before.buckets()[idx][i]).0@
                != key,
        forall|k: &String, h: usize|
            k@ == key && #[trigger] call_ensures(*before.hash_fn, (k,), h) ==> idx == (h & (
            before.buckets().len() - 1) as usize),
        after.hash_fn == before.hash_fn,
        after.length == before.length + 1,
        after.store@.len() == before.store@.len(),
        after.store@[idx]@.len() == before.store@[idx]@.len() + 1,
        after.store@[idx]@.last().0@ == key,
        after.store@[idx]@.last().1 == value,
        forall|i: int|
            0 <= i < before.store@[idx]@.len() ==> after.store@[idx]@[i] == before.store@[idx]@[i],
        forall|b: int| 0 <= b < before.store@.len() && b != idx ==> after.store@[b] == before.store@[b],
    ensures
        after.wf(),
        !before.has(key),
        after.holds(key, value),
        forall|other: Seq<char>, v: LocationInformation|
            other != key ==> (after.holds(other, v) <==> before.holds(other, v)),
{
    let old_store = before.store@;
    let new_store = after.store@;
    lemma_entry_total(old_store, new_store, idx);
    let last = old_store[idx]@.len() as int;
    assert(after.buckets()[idx][last] == new_store[idx]@[last]);
    if before.has(key) {
        let (b, i) = choose|b: int, i: int|
            0 <= b < before.buckets().len() && 0 <= i < before.buckets()[b].len()
                && (#[trigger] before.buckets()[b][i]).0@ == key;
        assert(b == idx);
    }
    assert forall|b: int, i: int|
        0 <= b < new_store.len() && 0 <= i < new_store[b]@.len() && (b != idx || i
            != last) implies i < old_store[b]@.len() && #[trigger] new_store[b]@[i]
        == old_store[b]@[i] by {}
    assert forall|b: int, i: int| 0 <= b < old_store.len() && 0 <= i < old_store[b]@.len() implies (
    #[trigger] old_store[b]@[i]).0@ != key by {
        assert(before.buckets()[b][i] == old_store[b]@[i]);
    }
    assert forall|b1: int, i1: int, b2: int, i2: int|
        0 <= b1 < new_store.len() && 0 <= i1 < new_store[b1]@.len() && 0 <= b2 < new_store.len()
            && 0 <= i2 < new_store[b2]@.len() && (b1 != b2 || i1 != i2) implies (
    #[trigger] new_store[b1]@[i1]).0@ != (#[trigger] new_store[b2]@[i2]).0@ by {
        if b1 == idx && i1 == last {
            assert(new_store[b2]@[i2] == old_store[b2]@[i2]);
        } else if b2 == idx && i2 == last {
            assert(new_store[b1]@[i1] == old_store[b1]@[i1]);
        } else {
            assert(new_store[b1]@[i1] == old_store[b1]@[i1]);
            assert(new_store[b2]@[i2] == old_store[b2]@[i2]);
        }
    }
    assert forall|b: int, i: int, k: &String, h: usize|
        0 <= b < new_store.len() && 0 <= i < new_store[b]@.len() && k@
            == (#[trigger] new_store[b]@[i]).0@ && #[trigger] call_ensures(
            *after.hash_fn,
            (k,),
            h,
        ) implies b == (h & (new_store.len() - 1) as usize) by {
        if b == idx && i == last {
        } else {
            assert(new_store[b]@[i] == old_store[b]@[i]);
        }
    }
    assert forall|other: Seq<char>, v: LocationInformation| other != key implies (after.holds(
        other,
        v,
    ) <==> before.holds(other, v)) by {
        if after.holds(other, v) {
            let (b, i) = choose|b: int, i: int|
                0 <= b < after.buckets().len() && 0 <= i < after.buckets()[b].len()
                    && (#[trigger] after.buckets()[b][i]).0@ == other && after.buckets()[b][i].1
                    == v;
            assert(after.buckets()[b][i] == new_store[b]@[i]);
            assert(before.buckets()[b][i] == old_store[b]@[i]);
        }
        if before.holds(other, v) {
            let (b, i) = choose|b: int, i: int|
                0 <= b < before.buckets().len() && 0 <= i < before.buckets()[b].len()
                    && (#[trigger] before.buckets()[b][i]).0@ == other && before.buckets()[b][i].1
                    == v;
            assert(before.buckets()[b][i] == old_store[b]@[i]);
            assert(after.buckets()[b][i] == new_store[b]@[i]);
        }
    }
}

} // verus!
