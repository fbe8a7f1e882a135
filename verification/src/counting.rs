//! Sums over finite sets, as the pool's totals need them.

use vstd::prelude::*;
use vstd::set_lib::lemma_len_intersect;

verus! {

/// The sum of `weight` over the members of a finite set.
pub open spec fn sum_over<K>(keys: Set<K>, weight: spec_fn(K) -> nat) -> nat
    decreases keys.len(),
    when keys.finite()
{
    if keys.len() == 0 {
        0
    } else {
        let key = keys.choose();
        weight(key) + sum_over(keys.remove(key), weight)
    }
}

/// A sum whose terms are sums is the sum of the two sums.
pub proof fn lemma_sum_split<K>(
    keys: Set<K>,
    whole: spec_fn(K) -> nat,
    left: spec_fn(K) -> nat,
    right: spec_fn(K) -> nat,
)
    requires
        keys.finite(),
        forall|key: K| keys.contains(key) ==> #[trigger] whole(key) == left(key) + right(key),
    ensures
        sum_over(keys, whole) == sum_over(keys, left) + sum_over(keys, right),
    decreases keys.len(),
{
    if keys.len() != 0 {
        let key = keys.choose();
        lemma_sum_split(keys.remove(key), whole, left, right);
    }
}

/// The sum of a weight that is 1 on the members of `marked` and 0 elsewhere
/// counts the members of `marked` among `keys`.
pub proof fn lemma_sum_counts<K>(keys: Set<K>, weight: spec_fn(K) -> nat, marked: Set<K>)
    requires
        keys.finite(),
        forall|key: K|
            keys.contains(key) ==> #[trigger] weight(key) == if marked.contains(key) {
                1nat
            } else {
                0nat
            },
    ensures
        keys.intersect(marked).finite(),
        sum_over(keys, weight) == keys.intersect(marked).len(),
    decreases keys.len(),
{
    lemma_len_intersect(keys, marked);
    if keys.len() == 0 {
        assert(keys.intersect(marked) =~= Set::empty());
    } else {
        let key = keys.choose();
        lemma_sum_counts(keys.remove(key), weight, marked);
        assert(keys.remove(key).intersect(marked) =~= keys.intersect(marked).remove(key));
    }
}

/// Any member of the set can be taken out of the sum first.
pub proof fn lemma_sum_remove<K>(keys: Set<K>, weight: spec_fn(K) -> nat, key: K)
    requires
        keys.finite(),
        keys.contains(key),
    ensures
        sum_over(keys, weight) == weight(key) + sum_over(keys.remove(key), weight),
    decreases keys.len(),
{
    let first = keys.choose();
    if first != key {
        lemma_sum_remove(keys.remove(first), weight, key);
        lemma_sum_remove(keys.remove(key), weight, first);
        assert(keys.remove(first).remove(key) =~= keys.remove(key).remove(first));
    }
}

/// A new member adds its weight to the sum.
pub proof fn lemma_sum_insert<K>(keys: Set<K>, weight: spec_fn(K) -> nat, key: K)
    requires
        keys.finite(),
        !keys.contains(key),
    ensures
        sum_over(keys.insert(key), weight) == weight(key) + sum_over(keys, weight),
{
    lemma_sum_remove(keys.insert(key), weight, key);
    assert(keys.insert(key).remove(key) =~= keys);
}

/// A sum of smaller terms is smaller.
pub proof fn lemma_sum_le<K>(keys: Set<K>, small: spec_fn(K) -> nat, large: spec_fn(K) -> nat)
    requires
        keys.finite(),
        forall|key: K| keys.contains(key) ==> #[trigger] small(key) <= large(key),
    ensures
        sum_over(keys, small) <= sum_over(keys, large),
    decreases keys.len(),
{
    if keys.len() != 0 {
        let key = keys.choose();
        lemma_sum_le(keys.remove(key), small, large);
    }
}

} // verus!
