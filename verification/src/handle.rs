//! Connection handles and the counter they are drawn from.

use vstd::arithmetic::div_mod::lemma_mod_equivalence;
use vstd::arithmetic::div_mod::lemma_small_mod;
use vstd::prelude::*;

verus! {

/// Opaque identity of a dedicated connection set.
#[derive(Clone, Copy, Debug, Hash, PartialEq, Eq, Structural)]
pub struct ConnectionHandle(u64);

/// The identifier that follows `id`; the counter wraps after `u64::MAX`.
pub open spec fn successor(id: u64) -> u64 {
    if id == u64::MAX {
        0
    } else {
        (id + 1) as u64
    }
}

/// The identifier issued `n` draws after the one that issued `start`.
pub open spec fn nth_id(start: u64, n: nat) -> u64 {
    ((start + n) % 0x1_0000_0000_0000_0000) as u64
}

/// Source of handle identifiers: a counter that starts at zero.
pub struct HandleCounter {
    next: u64,
}

impl View for ConnectionHandle {
    type V = u64;

    /// The identifier the handle carries.
    closed spec fn view(&self) -> u64 {
        self.0
    }
}

impl ConnectionHandle {
    /// Draws the next handle from `counter`.
    pub fn new(counter: &mut HandleCounter) -> (handle: Self)
        ensures
            handle@ == old(counter).next_id(),
            final(counter).next_id() == successor(old(counter).next_id()),
    {
        let id: u64 = counter.next;
        counter.next = counter.next.wrapping_add(1);
        ConnectionHandle(id)
    }

    /// The identifier the handle carries.
    pub fn id(&self) -> (id: u64)
        ensures
            id == self@,
    {
        self.0
    }

    /// Two handles are the same handle exactly when their identifiers agree.
    pub proof fn lemma_equal_by_id(self, other: Self)
        ensures
            (self == other) <==> (self@ == other@),
    {
    }
}

impl HandleCounter {
    /// The identifier the next handle will carry.
    pub closed spec fn next_id(&self) -> u64 {
        self.next
    }

    /// A counter from which no handle has been drawn yet.
    pub fn new() -> (counter: Self)
        ensures
            counter.next_id() == 0,
    {
        HandleCounter { next: 0 }
    }
}

/// Drawing once more moves from the `n`-th identifier to the one after it.
pub proof fn lemma_nth_id_step(start: u64, n: nat)
    ensures
        nth_id(start, 0) == start,
        nth_id(start, n + 1) == successor(nth_id(start, n)),
{
    let m = 0x1_0000_0000_0000_0000int;
    let a = (start + n) % m;
    assert((start + n + 1) % m == if a == m - 1 {
        0
    } else {
        a + 1
    }) by (nonlinear_arith)
        requires
            a == (start + n) % m,
            m == 0x1_0000_0000_0000_0000int,
            start + n >= 0,
    ;
}

/// Two handles drawn from one counter carry the same identifier exactly when
/// the number of draws between them is a multiple of 2^64, the point at which
/// the counter has wrapped round to where it was.
pub proof fn lemma_handles_unique(start: u64, i: nat, j: nat)
    ensures
        nth_id(start, i) == nth_id(start, j) <==> (j - i) % 0x1_0000_0000_0000_0000 == 0,
        i < j && j - i < 0x1_0000_0000_0000_0000 ==> nth_id(start, i) != nth_id(start, j),
{
    let m = 0x1_0000_0000_0000_0000int;
    lemma_mod_equivalence(start + j, start + i, m);
    if i < j && j - i < m {
        lemma_small_mod((j - i) as nat, m as nat);
    }
}

} // verus!
