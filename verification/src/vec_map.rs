//! A small map backed by two parallel vectors.
//!
//! The pool's tables by node hold one entry for each node of the cluster: a
//! handful, which a cluster event visits as a whole. They are kept in
//! insertion order in a pair of vectors, one of keys and one of values, in
//! which no key occurs twice. The mathematical view of such a map is a `Map`
//! from the view of the key to the value.

use vstd::prelude::*;

verus! {

/// A key of a [`VecMap`]: a value that is identified by its view and can be
/// compared with another key at run time.
pub trait Key: View + Sized {
    /// Whether the two keys have the same view.
    fn same(&self, other: &Self) -> (same: bool)
        ensures
            same == (self@ == other@),
    ;
}

impl Key for String {
    fn same(&self, other: &Self) -> (same: bool) {
        *self == *other
    }
}

/// The set of the views of `keys`.
pub open spec fn listed<K: View>(keys: Seq<K>) -> Set<K::V> {
    keys.map_values(|key: K| key@).to_set()
}

/// Whether `key` occurs in `keys`.
pub fn is_listed<K: Key>(keys: &[K], key: &K) -> (found: bool)
    ensures
        found == listed(keys@).contains(key@),
{
    let ghost views = keys@.map_values(|key: K| key@);
    let mut i: usize = 0;
    while i < keys.len()
        invariant
            i <= keys.len(),
            views == keys@.map_values(|key: K| key@),
            forall|j: int| 0 <= j < i ==> views[j] != key@,
        decreases keys.len() - i,
    {
        if keys[i].same(key) {
            assert(views[i as int] == key@);
            assert(views.contains(key@));
            return true;
        }
        assert(views[i as int] == keys@[i as int]@);
        i += 1;
    }
    assert(!views.contains(key@));
    false
}

/// Map from keys to values, stored as two parallel vectors.
pub struct VecMap<K, V> {
    keys: Vec<K>,
    values: Vec<V>,
}

impl<K: Key, V> View for VecMap<K, V> {
    type V = Map<K::V, V>;

    /// The map that sends each stored key's view to the value stored with it.
    open spec fn view(&self) -> Map<K::V, V> {
        Map::new(
            |id: K::V| self.key_seq().contains(id),
            |id: K::V| self.value_seq()[self.key_seq().index_of(id)],
        )
    }
}

impl<K: Key, V> VecMap<K, V> {
    /// The views of the stored keys, in storage order.
    pub closed spec fn key_seq(&self) -> Seq<K::V> {
        self.keys@.map_values(|k: K| k@)
    }

    /// The stored values, in storage order.
    pub closed spec fn value_seq(&self) -> Seq<V> {
        self.values@
    }

    /// Every key has a value, and no key is stored twice.
    pub open spec fn wf(&self) -> bool {
        &&& self.key_seq().len() == self.value_seq().len()
        &&& self.key_seq().no_duplicates()
    }

    /// The entry at position `i` of a well-formed map is the entry of the
    /// view under the key stored there.
    pub proof fn lemma_entry_at(&self, i: int)
        requires
            self.wf(),
            0 <= i < self.key_seq().len(),
        ensures
            self@.contains_key(self.key_seq()[i]),
            self@[self.key_seq()[i]] == self.value_seq()[i],
            self.key_seq().index_of(self.key_seq()[i]) == i,
    {
        let id = self.key_seq()[i];
        assert(self.key_seq().contains(id));
        let j = self.key_seq().index_of(id);
        assert(0 <= j < self.key_seq().len() && self.key_seq()[j] == id);
    }

    /// The view of a well-formed map is finite and has one key per position.
    pub proof fn lemma_view_len(&self)
        requires
            self.wf(),
        ensures
            self@.dom().finite(),
            self@.dom().len() == self.key_seq().len(),
    {
        self.key_seq().unique_seq_to_set();
        assert(self@.dom() =~= self.key_seq().to_set());
    }

    /// Replacing the value at position `i` is inserting under the key stored
    /// there.
    pub proof fn lemma_value_replaced(before: &Self, after: &Self, i: int)
        requires
            before.wf(),
            0 <= i < before.key_seq().len(),
            after.key_seq() == before.key_seq(),
            after.value_seq() == before.value_seq().update(i, after.value_seq()[i]),
        ensures
            after.wf(),
            after@ == before@.insert(before.key_seq()[i], after.value_seq()[i]),
    {
        let ks = before.key_seq();
        let expected = before@.insert(ks[i], after.value_seq()[i]);
        assert(ks.contains(ks[i]));
        assert forall|id: K::V| after@.contains_key(id) implies #[trigger] after@[id]
            == expected[id] by {
            let j = ks.index_of(id);
            if j != i {
                assert(ks[j] != ks[i]);
            }
        }
        assert(after@ =~= expected);
    }

    /// An empty map.
    pub fn new() -> (map: Self)
        ensures
            map.wf(),
            map@ == Map::<K::V, V>::empty(),
            map.key_seq().len() == 0,
    {
        let map = VecMap { keys: Vec::new(), values: Vec::new() };
        assert(map@ =~= Map::<K::V, V>::empty());
        map
    }

    /// The number of entries.
    pub fn len(&self) -> (len: usize)
        requires
            self.wf(),
        ensures
            len == self.key_seq().len(),
    {
        self.keys.len()
    }

    /// The position at which `key` is stored, if it is.
    pub fn position(&self, key: &K) -> (found: Option<usize>)
        requires
            self.wf(),
        ensures
            match found {
                Some(i) => i < self.key_seq().len() && self.key_seq()[i as int] == key@,
                None => !self.key_seq().contains(key@),
            },
            found.is_some() == self@.contains_key(key@),
    {
        let mut i: usize = 0;
        while i < self.keys.len()
            invariant
                i <= self.keys.len(),
                self.key_seq().len() == self.keys.len(),
                forall|j: int| 0 <= j < i ==> self.key_seq()[j] != key@,
            decreases self.keys.len() - i,
        {
            if self.keys[i].same(key) {
                assert(self.key_seq()[i as int] == self.keys[i as int]@);
                assert(self.key_seq().contains(key@));
                return Some(i);
            }
            assert(self.key_seq()[i as int] == self.keys[i as int]@);
            i += 1;
        }
        None
    }

    /// Whether `key` has an entry.
    pub fn contains_key(&self, key: &K) -> (present: bool)
        requires
            self.wf(),
        ensures
            present == self@.contains_key(key@),
    {
        self.position(key).is_some()
    }

    /// The value stored under `key`, if there is one.
    pub fn get(&self, key: &K) -> (found: Option<&V>)
        requires
            self.wf(),
        ensures
            match found {
                Some(value) => self@.contains_key(key@) && *value == self@[key@],
                None => !self@.contains_key(key@),
            },
    {
        match self.position(key) {
            Some(i) => {
                proof {
                    self.lemma_entry_at(i as int);
                }
                Some(&self.values[i])
            },
            None => None,
        }
    }

    /// The key at position `i`.
    pub fn key_at(&self, i: usize) -> (key: &K)
        requires
            self.wf(),
            i < self.key_seq().len(),
        ensures
            key@ == self.key_seq()[i as int],
    {
        &self.keys[i]
    }

    /// The value at position `i`.
    pub fn value_at(&self, i: usize) -> (value: &V)
        requires
            self.wf(),
            i < self.key_seq().len(),
        ensures
            *value == self.value_seq()[i as int],
    {
        &self.values[i]
    }

    /// Mutable access to the value at position `i`; the keys stay as they are.
    pub fn value_at_mut(&mut self, i: usize) -> (value: &mut V)
        requires
            old(self).wf(),
            i < old(self).key_seq().len(),
        ensures
            *value == old(self).value_seq()[i as int],
            final(self).wf(),
            final(self).key_seq() == old(self).key_seq(),
            final(self).value_seq() == old(self).value_seq().update(i as int, *final(value)),
    {
        &mut self.values[i]
    }

    /// Stores `value` under `key`, and returns the value that was stored
    /// there before, if any.
    pub fn insert(&mut self, key: K, value: V) -> (previous: Option<V>)
        requires
            old(self).wf(),
        ensures
            final(self).wf(),
            final(self)@ == old(self)@.insert(key@, value),
            previous == if old(self)@.contains_key(key@) {
                Some(old(self)@[key@])
            } else {
                None::<V>
            },
            old(self)@.contains_key(key@) ==> final(self).key_seq() == old(self).key_seq()
                && final(self).value_seq() == old(self).value_seq().update(
                old(self).key_seq().index_of(key@),
                value,
            ),
            !old(self)@.contains_key(key@) ==> final(self).key_seq() == old(self).key_seq().push(
                key@,
            ) && final(self).value_seq() == old(self).value_seq().push(value),
    {
        match self.position(&key) {
            Some(i) => {
                let mut value = value;
                let ghost stored = value;
                proof {
                    self.lemma_entry_at(i as int);
                }
                core::mem::swap(&mut self.values[i], &mut value);
                proof {
                    let ks = self.key_seq();
                    let after = self@;
                    let expected = old(self)@.insert(key@, stored);
                    assert forall|id: K::V| after.contains_key(id) implies #[trigger] after[id]
                        == expected[id] by {
                        let j = ks.index_of(id);
                        if j != i {
                            assert(ks[j] != ks[i as int]);
                        }
                    }
                    assert(after =~= expected);
                }
                Some(value)
            },
            None => {
                let ghost old_keys = self.key_seq();
                let ghost old_values = self.value_seq();
                self.keys.push(key);
                self.values.push(value);
                proof {
                    let ks = self.key_seq();
                    assert(ks =~= old_keys.push(key@));
                    assert(self.value_seq() =~= old_values.push(value));
                    let after = self@;
                    let expected = old(self)@.insert(key@, value);
                    assert forall|id: K::V| expected.contains_key(id) implies after.contains_key(
                        id,
                    ) by {
                        if id == key@ {
                            assert(ks[old_keys.len() as int] == id);
                        } else {
                            let j = old_keys.index_of(id);
                            assert(ks[j] == id);
                        }
                    }
                    assert forall|id: K::V| after.contains_key(id) implies expected.contains_key(
                        id,
                    ) && #[trigger] after[id] == expected[id] by {
                        let j = ks.index_of(id);
                        if j < old_keys.len() {
                            assert(old_keys[j] == id);
                            assert(old_keys.contains(id));
                            let k = old_keys.index_of(id);
                            assert(ks[k] == id);
                        }
                    }
                    assert(after =~= expected);
                }
                None
            },
        }
    }

    /// Removes the entry at position `i` and returns it; the entries behind
    /// it move up by one.
    pub fn remove_at(&mut self, i: usize) -> (entry: (K, V))
        requires
            old(self).wf(),
            i < old(self).key_seq().len(),
        ensures
            final(self).wf(),
            entry.0@ == old(self).key_seq()[i as int],
            entry.1 == old(self).value_seq()[i as int],
            final(self).key_seq() == old(self).key_seq().remove(i as int),
            final(self).value_seq() == old(self).value_seq().remove(i as int),
            final(self)@ == old(self)@.remove(entry.0@),
    {
        let ghost old_keys = self.key_seq();
        let ghost old_values = self.value_seq();
        let key = self.keys.remove(i);
        let value = self.values.remove(i);
        proof {
            let ks = self.key_seq();
            let vs = self.value_seq();
            assert(key@ == old_keys[i as int]);
            assert(ks =~= old_keys.remove(i as int));
            assert(vs =~= old_values.remove(i as int));
            assert(forall|j: int| 0 <= j < i ==> ks[j] == old_keys[j]);
            assert(forall|j: int| i <= j < ks.len() ==> ks[j] == old_keys[j + 1]);
            let after = self@;
            let expected = old(self)@.remove(key@);
            assert forall|id: K::V| expected.contains_key(id) implies after.contains_key(id) by {
                let j = old_keys.index_of(id);
                if j < i {
                    assert(ks[j] == id);
                } else {
                    assert(ks[j - 1] == id);
                }
            }
            assert forall|id: K::V| after.contains_key(id) implies expected.contains_key(id)
                && #[trigger] after[id] == expected[id] by {
                let j = ks.index_of(id);
                let k = if j < i {
                    j
                } else {
                    j + 1
                };
                assert(old_keys[k] == id);
                assert(old_keys.contains(id));
                assert(old_keys[k] != old_keys[i as int]);
                let m = old_keys.index_of(id);
                assert(m == k);
                assert(vs[j] == old_values[k]);
            }
            assert(after =~= expected);
        }
        (key, value)
    }

    /// Removes the entry under `key` and returns its value, if there is one.
    pub fn remove(&mut self, key: &K) -> (removed: Option<V>)
        requires
            old(self).wf(),
        ensures
            final(self).wf(),
            final(self)@ == old(self)@.remove(key@),
            removed == if old(self)@.contains_key(key@) {
                Some(old(self)@[key@])
            } else {
                None::<V>
            },
    {
        match self.position(key) {
            Some(i) => {
                proof {
                    self.lemma_entry_at(i as int);
                }
                let entry = self.remove_at(i);
                Some(entry.1)
            },
            None => {
                assert(self@ =~= old(self)@.remove(key@));
                None
            },
        }
    }

    /// Removes the entry stored last and returns it; `None` on an empty map.
    pub fn pop(&mut self) -> (entry: Option<(K, V)>)
        requires
            old(self).wf(),
        ensures
            final(self).wf(),
            match entry {
                Some((key, value)) => {
                    &&& old(self)@.contains_key(key@)
                    &&& old(self)@[key@] == value
                    &&& final(self)@ == old(self)@.remove(key@)
                    &&& final(self).key_seq() == old(self).key_seq().drop_last()
                    &&& old(self).key_seq().len() > 0
                },
                None => old(self).key_seq().len() == 0 && final(self)@ == old(self)@ && old(
                    self,
                )@ == Map::<K::V, V>::empty(),
            },
    {
        let n: usize = self.keys.len();
        if n == 0 {
            assert(self@ =~= Map::<K::V, V>::empty());
            None
        } else {
            proof {
                self.lemma_entry_at(n - 1);
            }
            let ghost old_keys = self.key_seq();
            let entry = self.remove_at(n - 1);
            assert(self.key_seq() =~= old_keys.drop_last());
            Some(entry)
        }
    }

    /// What is left of `start` once the keys behind `prefix` that are not in
    /// `kept` have been dropped.
    spec fn retained(start: Map<K::V, V>, prefix: Seq<K::V>, kept: Set<K::V>) -> Map<K::V, V> {
        Map::new(
            |id: K::V| start.contains_key(id) && (kept.contains(id) || prefix.contains(id)),
            |id: K::V| start[id],
        )
    }

    /// Drops every entry whose key does not occur in `keep`.
    pub fn retain_listed(&mut self, keep: &[K])
        requires
            old(self).wf(),
        ensures
            final(self).wf(),
            final(self)@ == old(self)@.restrict(listed(keep@)),
    {
        let ghost start = *self;
        let ghost kept = listed(keep@);
        let mut i: usize = self.keys.len();
        assert(start.key_seq().take(i as int) =~= start.key_seq());
        assert(self@ =~= Self::retained(start@, start.key_seq(), kept));
        while i > 0
            invariant
                start.wf(),
                self.wf(),
                kept == listed(keep@),
                i <= self.key_seq().len(),
                i <= start.key_seq().len(),
                self.key_seq().take(i as int) == start.key_seq().take(i as int),
                self@ == Self::retained(start@, start.key_seq().take(i as int), kept),
            decreases i,
        {
            i -= 1;
            let ghost prefix = start.key_seq().take(i + 1);
            let ghost shorter = start.key_seq().take(i as int);
            let ghost id_here = start.key_seq()[i as int];
            assert(self.key_seq().take(i + 1)[i as int] == prefix[i as int]);
            assert(shorter =~= prefix.take(i as int));
            assert(!shorter.contains(id_here));
            assert forall|id: K::V| prefix.contains(id) <==> id == id_here || shorter.contains(
                id,
            ) by {
                if prefix.contains(id) {
                    let j = prefix.index_of(id);
                    if j < i {
                        assert(shorter[j] == id);
                    }
                }
                if shorter.contains(id) {
                    let j = shorter.index_of(id);
                    assert(prefix[j] == id);
                }
                assert(prefix[i as int] == id_here);
            }
            let ghost before = *self;
            if !is_listed(keep, self.key_at(i)) {
                self.remove_at(i);
            }
            assert(self.key_seq().take(i as int) =~= before.key_seq().take(i + 1).take(i as int));
            assert(self@ =~= Self::retained(start@, shorter, kept));
        }
        assert(start.key_seq().take(0).len() == 0);
        assert(self@ =~= start@.restrict(kept));
    }
}

} // verus!
