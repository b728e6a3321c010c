//! A map from stamped keys to values, with a logical clock for creating
//! fresh keys.  Entries are kept in insertion order; an index from the
//! number of a stamp (`stamp_code`) to the place of its entry finds them.
use vstd::prelude::*;
use std::collections::HashMap;
use crate::ids::{SiteId, Clock, Stamped, stamp_code, stamp_code_of, lemma_stamp_code_injective};

verus! {

broadcast use vstd::std_specs::hash::group_hash_axioms;

/// The number a key is stored under.
pub open spec fn key_code<K: Stamped>(k: K) -> u64 {
    stamp_code(k.stamp_site(), k.stamp_value())
}

/// Keys with the same number are the same key.
pub proof fn lemma_key_code_injective<K: Stamped>(a: K, b: K)
    requires
        key_code(a) == key_code(b),
    ensures
        a == b,
{
    lemma_stamp_code_injective(a.stamp_site(), a.stamp_value(), b.stamp_site(), b.stamp_value());
    K::lemma_stamp_determines(a, b);
}

fn key_code_of<K: Stamped>(k: &K) -> (r: u64)
    ensures
        r == key_code(*k),
{
    stamp_code_of(k.site(), k.value())
}

/// A map from stamped keys to values.
#[derive(Debug, Clone)]
pub struct StampedMap<K, V> {
    index: HashMap<u64, usize>,
    entries: Vec<(K, V)>,
    clock: Clock<u32>,
}

impl<K: Stamped, V> StampedMap<K, V> {
    /// The entries, in the order their keys were first inserted.
    pub closed spec fn entry_seq(&self) -> Seq<(K, V)> {
        self.entries@
    }

    /// The time the map's clock hands out next.
    pub closed spec fn now(&self) -> int {
        self.clock.now()
    }

    /// The time the map's clock hands out next.
    pub fn time(&self) -> (t: u32)
        ensures
            t == self.now(),
    {
        self.clock.time()
    }

    pub proof fn lemma_now_range(&self)
        ensures
            0 <= self.now() <= u32::MAX,
    {
        self.clock.lemma_range();
    }

    /// The index and the entries agree.
    pub closed spec fn wf(&self) -> bool {
        &&& forall|i: int|
            0 <= i < self.entries@.len() ==> self.index@.contains_key(
                key_code(#[trigger] self.entries@[i].0),
            ) && self.index@[key_code(self.entries@[i].0)] == i
        &&& forall|c: u64|
            #[trigger] self.index@.contains_key(c) ==> self.index@[c] < self.entries@.len()
                && key_code(self.entries@[self.index@[c] as int].0) == c
    }

    /// Whether the map has the key.
    pub closed spec fn has(&self, k: K) -> bool {
        self.index@.contains_key(key_code(k))
    }

    /// The value the map holds under the key.
    pub closed spec fn at(&self, k: K) -> V {
        self.entries@[self.index@[key_code(k)] as int].1
    }

    /// The place of the key's entry.
    pub closed spec fn slot_of(&self, k: K) -> int {
        self.index@[key_code(k)] as int
    }

    /// The map as a mathematical map.
    pub open spec fn view(&self) -> Map<K, V> {
        Map::new(|k: K| self.has(k), |k: K| self.at(k))
    }

    proof fn lemma_entries_cover(&self)
        requires
            self.wf(),
        ensures
            forall|k: K| #[trigger] self.has(k) ==> exists|i: int|
                0 <= i < self.entry_seq().len() && self.entry_seq()[i].0 == k
                && self.entry_seq()[i].1 == self.at(k),
            forall|i: int|
                0 <= i < self.entry_seq().len() ==> self.has(#[trigger] self.entry_seq()[i].0)
                    && self.at(self.entry_seq()[i].0) == self.entry_seq()[i].1,
    {
        assert forall|k: K| #[trigger] self.has(k) implies exists|i: int|
            0 <= i < self.entry_seq().len() && self.entry_seq()[i].0 == k && self.entry_seq()[i].1
                == self.at(k) by {
            assert(self.index@.contains_key(key_code(k)));
            let i = self.index@[key_code(k)] as int;
            lemma_key_code_injective(self.entries@[i].0, k);
            assert(0 <= i < self.entry_seq().len() && self.entry_seq()[i].0 == k);
        }
    }

    pub fn new() -> (r: Self)
        ensures
            r.wf(),
            r@ == Map::<K, V>::empty(),
            r.entry_seq() == Seq::<(K, V)>::empty(),
            r.now() == 0,
    {
        let r = StampedMap { index: HashMap::new(), entries: Vec::new(), clock: Clock::new() };
        assert(r@ =~= Map::<K, V>::empty());
        r
    }

    fn find(&self, k: &K) -> (r: Option<usize>)
        requires
            self.wf(),
        ensures
            match r {
                Some(i) => self.has(*k) && i == self.index@[key_code(*k)] && i
                    < self.entries@.len(),
                None => !self.has(*k),
            },
    {
        let c = key_code_of(k);
        match self.index.get(&c) {
            Some(i) => Some(*i),
            None => None,
        }
    }

    /// Puts the value under the key and makes the clock catch up with the
    /// key's time.
    pub fn insert(&mut self, key: K, value: V)
        requires
            old(self).wf(),
        ensures
            final(self).wf(),
            final(self)@ == old(self)@.insert(key, value),
            final(self).now() == (if old(self).now() > key.stamp_value() {
                old(self).now()
            } else {
                key.stamp_value() as int
            }),
            old(self).has(key) ==> final(self).entry_seq() == old(self).entry_seq().update(
                old(self).slot_of(key),
                (key, value),
            ),
            !old(self).has(key) ==> final(self).entry_seq() == old(self).entry_seq().push(
                (key, value),
            ),
    {
        let ghost old_map = self@;
        let c = key_code_of(&key);
        let k = key.value();
        match self.find(&key) {
            Some(i) => {
                self.entries.set(i, (key, value));
                proof {
                    assert forall|j: int| 0 <= j < self.entries@.len() implies self.index@.contains_key(
                        key_code(#[trigger] self.entries@[j].0),
                    ) && self.index@[key_code(self.entries@[j].0)] == j by {
                        if j == i {
                        }
                    }
                    assert forall|c2: u64| #[trigger] self.index@.contains_key(c2) implies self.index@[c2]
                        < self.entries@.len() && key_code(self.entries@[self.index@[c2] as int].0)
                        == c2 by {
                        if self.index@[c2] == i {
                            assert(c2 == c);
                        }
                    }
                    assert forall|k2: K| self.has(k2) == old_map.insert(key, value).contains_key(k2) && (self.has(k2) ==> self.at(k2) == old_map.insert(key, value)[k2]) by {
                        if k2 != key {
                            if key_code(k2) == c {
                                lemma_key_code_injective(k2, key);
                            }
                        }
                    }
                    assert(self@ =~= old_map.insert(key, value));
                }
            },
            None => {
                let n = self.entries.len();
                self.entries.push((key, value));
                self.index.insert(c, n);
                proof {
                    assert forall|j: int| 0 <= j < self.entries@.len() implies self.index@.contains_key(
                        key_code(#[trigger] self.entries@[j].0),
                    ) && self.index@[key_code(self.entries@[j].0)] == j by {
                        if j < n {
                            assert(key_code(self.entries@[j].0) != c);
                        }
                    }
                    assert forall|k2: K| self.has(k2) == old_map.insert(key, value).contains_key(k2) && (self.has(k2) ==> self.at(k2) == old_map.insert(key, value)[k2]) by {
                        if k2 != key {
                            if key_code(k2) == c {
                                lemma_key_code_injective(k2, key);
                            }
                        }
                    }
                    assert(self@ =~= old_map.insert(key, value));
                }
            },
        }
        self.clock.seen(k);
    }

    /// Puts the value under a fresh key made of `site` and the current time.
    pub fn create(&mut self, site: SiteId, value: V) -> (key: K)
        requires
            old(self).wf(),
            old(self).now() < u32::MAX,
        ensures
            final(self).wf(),
            key.stamp_site() == site,
            key.stamp_value() == old(self).now(),
            final(self)@ == old(self)@.insert(key, value),
            final(self).now() == old(self).now() + 1,
    {
        let t = self.clock.next();
        let key = K::new(site, t);
        self.insert(key, value);
        key
    }

    /// The value under the key.
    pub fn get(&self, key: K) -> (r: Option<&V>)
        requires
            self.wf(),
        ensures
            r is Some <==> self@.contains_key(key),
            r matches Some(v) ==> *v == self@[key],
    {
        match self.find(&key) {
            Some(i) => Some(&self.entries[i].1),
            None => None,
        }
    }

    /// Two maps that differ at most in the value under `key`.
    pub closed spec fn same_but_value(&self, other: &Self, key: K) -> bool {
        &&& self.index@ == other.index@
        &&& self.clock == other.clock
        &&& self.entries@.len() == other.entries@.len()
        &&& other.has(key)
        &&& forall|i: int| 0 <= i < self.entries@.len() ==> (#[trigger] self.entries@[i]).0 == other.entries@[i].0
        &&& forall|i: int| 0 <= i < self.entries@.len() && i != other.slot_of(key) ==> #[trigger] self.entries@[i] == other.entries@[i]
    }

    /// A map that differs from a well-formed one only in the value under
    /// `key` is that map with `key` updated.
    pub proof fn lemma_same_but_value(&self, other: &Self, key: K)
        requires
            other.wf(),
            self.same_but_value(other, key),
        ensures
            self.wf(),
            self@ == other@.insert(key, self@[key]),
            self.now() == other.now(),
            self@.contains_key(key),
    {
        assert forall|c: u64| #[trigger] self.index@.contains_key(c) implies self.index@[c] < self.entries@.len()
            && key_code(self.entries@[self.index@[c] as int].0) == c by {
            assert(other.index@.contains_key(c));
        }
        assert forall|k2: K| self.has(k2) == other@.insert(key, self@[key]).contains_key(k2) && (self.has(k2)
            ==> self.at(k2) == other@.insert(key, self@[key])[k2]) by {
            if k2 != key && self.has(k2) {
                if key_code(k2) == key_code(key) {
                    lemma_key_code_injective(k2, key);
                }
                assert(other.index@.contains_key(key_code(k2)));
                assert(other.index@.contains_key(key_code(key)));
            }
        }
        assert(self@ =~= other@.insert(key, self@[key]));
    }

    /// The value under the key, to change it in place; the map keeps its
    /// keys and all other values (see `lemma_same_but_value`).
    pub fn get_mut(&mut self, key: K) -> (r: Option<&mut V>)
        requires
            old(self).wf(),
        ensures
            r is Some <==> old(self)@.contains_key(key),
            r matches Some(v) ==> *v == old(self)@[key] && final(self).same_but_value(&*old(self), key)
                && final(self)@[key] == *final(v),
            r is None ==> *final(self) == *old(self),
    {
        match self.find(&key) {
            Some(i) => {
                proof {
                    lemma_key_code_injective(self.entries@[i as int].0, key);
                }
                let e = &mut self.entries[i];
                Some(&mut e.1)
            },
            None => None,
        }
    }

    /// The entries, in the order their keys were first inserted.
    pub fn iter(&self) -> (r: Vec<(K, &V)>)
        requires
            self.wf(),
        ensures
            r@.len() == self.entry_seq().len(),
            forall|i: int|
                0 <= i < r@.len() ==> (#[trigger] r@[i]).0 == self.entry_seq()[i].0 && *r@[i].1
                    == self.entry_seq()[i].1,
            forall|i: int| 0 <= i < r@.len() ==> self@.contains_key(#[trigger] r@[i].0) && self@[r@[i].0] == *r@[i].1,
            forall|k: K| #[trigger] self@.contains_key(k) ==> exists|i: int| 0 <= i < r@.len() && r@[i].0 == k,
            forall|i: int, j: int| 0 <= i < j < r@.len() ==> (#[trigger] r@[i]).0 != (#[trigger] r@[j]).0,
    {
        proof {
            self.lemma_entries_cover();
            assert forall|i: int, j: int| 0 <= i < j < self.entries@.len() implies
                (#[trigger] self.entries@[i]).0 != (#[trigger] self.entries@[j]).0 by {
                assert(self.index@[key_code(self.entries@[i].0)] == i);
                assert(self.index@[key_code(self.entries@[j].0)] == j);
            }
        }
        let mut out: Vec<(K, &V)> = Vec::new();
        let mut i: usize = 0;
        while i < self.entries.len()
            invariant
                0 <= i <= self.entries@.len(),
                out@.len() == i,
                forall|j: int|
                    0 <= j < i ==> (#[trigger] out@[j]).0 == self.entries@[j].0 && *out@[j].1
                        == self.entries@[j].1,
            decreases self.entries@.len() - i,
        {
            let e = &self.entries[i];
            out.push((e.0, &e.1));
            i = i + 1;
        }
        assert forall|k: K| #[trigger] self@.contains_key(k) implies exists|j: int| 0 <= j < out@.len() && out@[j].0 == k by {
            assert(self.has(k));
            let j = choose|j: int| 0 <= j < self.entry_seq().len() && self.entry_seq()[j].0 == k
                && self.entry_seq()[j].1 == self.at(k);
            assert(out@[j].0 == k);
        }
        out
    }
}

/// What was put under a key is what the map gives back for it; the other
/// keys keep what they had.
pub proof fn lemma_insert_then_get<K: Stamped, V>(before: StampedMap<K, V>, after: StampedMap<K, V>, key: K, value: V, other: K)
    requires
        after@ == before@.insert(key, value),
        other != key,
    ensures
        after@.contains_key(key),
        after@[key] == value,
        after@.contains_key(other) == before@.contains_key(other),
        before@.contains_key(other) ==> after@[other] == before@[other],
{
}

} // verus!
