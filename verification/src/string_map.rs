//! A map keyed by strings, for tables that grow with what callers put in.
//!
//! std's hash map can be reasoned about where its keys are integers. So the
//! entries are kept in such a map under a number computed from the key's
//! bytes, and the few keys that share a number stand together in a small
//! [`VecMap`]. A lookup computes the number, finds the bucket, and compares
//! the key with the keys in it.

use crate::vec_map::VecMap;
use std::collections::HashMap;
use vstd::prelude::*;
use vstd::string::StringSliceAdditionalSpecFns;

verus! {

broadcast use vstd::std_specs::hash::group_hash_axioms;

/// The number after one more byte: 31 times the number before, plus the
/// byte, cut to 64 bits.
pub open spec fn mix(number: u64, byte: u8) -> u64 {
    number.wrapping_mul(31).wrapping_add(byte as u64)
}

/// The number computed from `bytes`, first byte first.
pub open spec fn number_of(bytes: Seq<u8>) -> u64
    decreases bytes.len(),
{
    if bytes.len() == 0 {
        0
    } else {
        mix(number_of(bytes.drop_last()), bytes.last())
    }
}

/// The bucket in which the key with the view `key` stands: the number
/// computed from its bytes in UTF-8.
pub open spec fn bucket_of(key: Seq<char>) -> u64 {
    number_of(vstd::utf8::encode_utf8(key))
}

/// Computes the bucket of `key`.
pub fn bucket(key: &str) -> (number: u64)
    ensures
        number == bucket_of(key@),
{
    let bytes = key.as_bytes();
    let mut number: u64 = 0;
    let mut i: usize = 0;
    while i < bytes.len()
        invariant
            i <= bytes.len(),
            bytes@ == key.spec_bytes(),
            number == number_of(bytes@.take(i as int)),
        decreases bytes.len() - i,
    {
        assert(bytes@.take(i + 1).drop_last() =~= bytes@.take(i as int));
        number = number.wrapping_mul(31).wrapping_add(bytes[i] as u64);
        i += 1;
    }
    assert(bytes@.take(i as int) =~= bytes@);
    number
}

/// Map from strings to values, stored in buckets.
pub struct StringMap<V> {
    buckets: HashMap<u64, VecMap<String, V>>,
}

impl<V> View for StringMap<V> {
    type V = Map<Seq<char>, V>;

    /// The map that sends each stored key's view to the value stored with it.
    closed spec fn view(&self) -> Map<Seq<char>, V> {
        Map::new(
            |key: Seq<char>|
                self.buckets@.contains_key(bucket_of(key))
                    && self.buckets@[bucket_of(key)]@.contains_key(key),
            |key: Seq<char>| self.buckets@[bucket_of(key)]@[key],
        )
    }
}

impl<V> StringMap<V> {
    /// Every bucket is well formed.
    pub closed spec fn wf(&self) -> bool {
        forall|number: u64| #[trigger]
            self.buckets@.contains_key(number) ==> self.buckets@[number].wf()
    }

    /// An empty map.
    pub fn new() -> (map: Self)
        ensures
            map.wf(),
            map@ == Map::<Seq<char>, V>::empty(),
    {
        let map = StringMap { buckets: HashMap::new() };
        assert(map@ =~= Map::<Seq<char>, V>::empty());
        map
    }

    /// The value stored under `key`, if there is one.
    pub fn get(&self, key: &String) -> (found: Option<&V>)
        requires
            self.wf(),
        ensures
            match found {
                Some(value) => self@.contains_key(key@) && *value == self@[key@],
                None => !self@.contains_key(key@),
            },
    {
        let number: u64 = bucket(key.as_str());
        match self.buckets.get(&number) {
            Some(entries) => entries.get(key),
            None => None,
        }
    }

    /// Whether `key` has an entry.
    pub fn contains_key(&self, key: &String) -> (present: bool)
        requires
            self.wf(),
        ensures
            present == self@.contains_key(key@),
    {
        self.get(key).is_some()
    }

    /// Stores `value` under `key`, and returns the value that was stored
    /// there before, if any.
    pub fn insert(&mut self, key: String, value: V) -> (previous: Option<V>)
        requires
            old(self).wf(),
        ensures
            final(self).wf(),
            final(self)@ == old(self)@.insert(key@, value),
            previous == if old(self)@.contains_key(key@) {
                Some(old(self)@[key@])
            } else {
                None::<V>
            },
    {
        let number: u64 = bucket(key.as_str());
        let mut entries = match self.buckets.remove(&number) {
            Some(entries) => entries,
            None => VecMap::new(),
        };
        let previous = entries.insert(key, value);
        self.buckets.insert(number, entries);
        assert(self@ =~= old(self)@.insert(key@, value));
        previous
    }

    /// Removes the entry under `key` and returns its value, if there is one.
    pub fn remove(&mut self, key: &String) -> (removed: Option<V>)
        requires
            old(self).wf(),
        ensures
            final(self).wf(),
            final(self)@ == old(self)@.remove(key@),
            removed == if old(self)@.contains_key(key@) {
                Some(old(self)@[key@])
            } else {
                None::<V>
            },
    {
        let number: u64 = bucket(key.as_str());
        match self.buckets.remove(&number) {
            Some(entries) => {
                let mut entries = entries;
                let ghost before = entries;
                let removed = entries.remove(key);
                if entries.len() > 0 {
                    self.buckets.insert(number, entries);
                    assert(self@ =~= old(self)@.remove(key@));
                } else {
                    assert forall|other: Seq<char>| other != key@ implies !before@.contains_key(
                        other,
                    ) by {
                        assert(!entries.key_seq().contains(other));
                        assert(!entries@.contains_key(other));
                    }
                    assert(self@ =~= old(self)@.remove(key@));
                }
                removed
            },
            None => {
                assert(self@ =~= old(self)@.remove(key@));
                None
            },
        }
    }
}

} // verus!
