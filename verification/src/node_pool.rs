//! The idle connections of one node.

use crate::managed::ManagedConnection;
use crate::managed::ManagedView;
use vstd::prelude::*;

verus! {

/// The free list of one node and the number of its connections in use.
pub struct NodePoolView<C> {
    /// The idle connections; the one parked last stands last.
    pub available: Seq<ManagedView<C>>,
    /// How many connections were taken and not yet given back.
    pub in_use: nat,
}

/// The position of the last healthy connection in `list`, or -1 if it holds
/// none.
pub open spec fn last_healthy<C>(list: Seq<ManagedView<C>>) -> int
    decreases list.len(),
{
    if list.len() == 0 {
        -1
    } else if list.last().healthy {
        list.len() - 1
    } else {
        last_healthy(list.drop_last())
    }
}

/// `last_healthy` names a healthy connection behind which every connection is
/// unhealthy, and is -1 exactly when no connection is healthy.
pub proof fn lemma_last_healthy<C>(list: Seq<ManagedView<C>>)
    ensures
        -1 <= last_healthy(list) < list.len(),
        last_healthy(list) >= 0 ==> list[last_healthy(list)].healthy,
        forall|j: int| last_healthy(list) < j < list.len() ==> !(#[trigger] list[j]).healthy,
    decreases list.len(),
{
    if list.len() > 0 && !list.last().healthy {
        lemma_last_healthy(list.drop_last());
        assert forall|j: int| last_healthy(list) < j < list.len() implies !(
            #[trigger] list[j]).healthy by {
            if j < list.len() - 1 {
                assert(list.drop_last()[j] == list[j]);
            }
        }
    }
}

impl<C> NodePoolView<C> {
    /// A pool without idle connections and with none in use.
    pub open spec fn empty() -> Self {
        NodePoolView { available: Seq::empty(), in_use: 0 }
    }

    /// The idle connection that the next `acquire` hands out: the healthy
    /// one that was parked last.
    pub open spec fn reusable(self) -> Option<ManagedView<C>> {
        if last_healthy(self.available) >= 0 {
            Some(self.available[last_healthy(self.available)])
        } else {
            None
        }
    }

    /// The pool after `acquire`. Where it hands out a connection, that one has
    /// left the free list together with the unhealthy ones parked behind it,
    /// and counts as in use. Where it has none to hand out, the unhealthy ones
    /// are gone and the count is as before.
    pub open spec fn after_acquire(self) -> Self {
        if last_healthy(self.available) >= 0 {
            NodePoolView {
                available: self.available.take(last_healthy(self.available)),
                in_use: self.in_use + 1,
            }
        } else {
            NodePoolView { available: Seq::empty(), in_use: self.in_use }
        }
    }

    /// The pool after a connection that was opened for the node was taken
    /// into use: one more connection counts as in use.
    pub open spec fn after_open(self) -> Self {
        NodePoolView { in_use: self.in_use + 1, ..self }
    }

    /// The pool after `conn` was given back: one connection fewer counts as
    /// in use, never fewer than none, and `conn` is parked if it is healthy.
    pub open spec fn after_release(self, conn: ManagedView<C>) -> Self {
        NodePoolView {
            available: if conn.healthy {
                self.available.push(conn)
            } else {
                self.available
            },
            in_use: if self.in_use > 0 {
                (self.in_use - 1) as nat
            } else {
                0
            },
        }
    }

    /// Every idle connection is healthy.
    pub open spec fn all_healthy(self) -> bool {
        forall|i: int| 0 <= i < self.available.len() ==> (#[trigger] self.available[i]).healthy
    }
}

/// The free list is last in, first out: a pool whose idle connections are all
/// healthy hands out the one that was parked last, and a connection that was
/// given back healthy is the next one to be handed out.
pub proof fn lemma_free_list_is_lifo<C>(pool: NodePoolView<C>, conn: ManagedView<C>)
    requires
        pool.all_healthy(),
    ensures
        pool.available.len() > 0 ==> pool.reusable() == Some(pool.available.last())
            && pool.after_acquire().available == pool.available.drop_last(),
        pool.available.len() == 0 ==> pool.reusable().is_none(),
        conn.healthy ==> pool.after_release(conn).reusable() == Some(conn) && pool.after_release(
            conn,
        ).after_acquire().available == pool.available,
        !conn.healthy ==> pool.after_release(conn).available == pool.available,
{
    if pool.available.len() > 0 {
        assert(pool.available.last().healthy);
        assert(pool.available.take(pool.available.len() - 1) =~= pool.available.drop_last());
    }
    if conn.healthy {
        let parked = pool.available.push(conn);
        assert(parked.last() == conn);
        assert(parked.take(parked.len() - 1) =~= pool.available);
    }
}

/// Pool of idle dedicated connections of one node.
pub struct NodeConnectionPool<C> {
    available: Vec<ManagedConnection<C>>,
    in_use: usize,
}

impl<C> View for NodeConnectionPool<C> {
    type V = NodePoolView<C>;

    closed spec fn view(&self) -> NodePoolView<C> {
        NodePoolView {
            available: self.available@.map_values(|m: ManagedConnection<C>| m@),
            in_use: self.in_use as nat,
        }
    }
}

impl<C> NodeConnectionPool<C> {
    /// A pool without connections.
    pub fn new() -> (pool: Self)
        ensures
            pool@ == NodePoolView::<C>::empty(),
    {
        let pool = NodeConnectionPool { available: Vec::new(), in_use: 0 };
        assert(pool@.available =~= Seq::empty());
        pool
    }

    /// Takes the healthy connection that was parked last, dropping the
    /// unhealthy ones parked behind it, and counts it as in use. `None` means
    /// that the free list held no healthy connection, so that the caller has to
    /// open one; nothing is counted until that connection is there.
    pub fn acquire(&mut self) -> (reused: Option<ManagedConnection<C>>)
        requires
            old(self)@.reusable().is_some() ==> old(self)@.in_use < usize::MAX,
        ensures
            final(self)@ == old(self)@.after_acquire(),
            match reused {
                Some(managed) => old(self)@.reusable() == Some(managed@),
                None => old(self)@.reusable().is_none(),
            },
    {
        let ghost before = self@.available;
        loop
            invariant
                self.in_use == old(self).in_use,
                self@.available.len() <= before.len(),
                self@.available == before.take(self@.available.len() as int),
                last_healthy(self@.available) == last_healthy(before),
                before == old(self)@.available,
                old(self)@.reusable().is_some() ==> old(self)@.in_use < usize::MAX,
            decreases self.available.len(),
        {
            let ghost current = self@.available;
            match self.available.pop() {
                Some(managed) => {
                    assert(self@.available =~= current.drop_last());
                    assert(managed@ == current.last());
                    assert(self@.available =~= before.take(self@.available.len() as int));
                    if managed.is_healthy() {
                        assert(before[last_healthy(before)] == managed@);
                        self.in_use = self.in_use + 1;
                        return Some(managed);
                    }
                },
                None => {
                    assert(self@.available =~= Seq::empty());
                    return None;
                },
            }
        }
    }

    /// Counts a connection that was opened for the node as in use.
    pub fn count_opened(&mut self)
        requires
            old(self)@.in_use < usize::MAX,
        ensures
            final(self)@ == old(self)@.after_open(),
    {
        self.in_use = self.in_use + 1;
    }

    /// Gives `conn` back: it is parked if it is healthy and dropped if not, and
    /// one connection fewer counts as in use.
    pub fn release(&mut self, conn: ManagedConnection<C>)
        ensures
            final(self)@ == old(self)@.after_release(conn@),
    {
        let ghost before = self@.available;
        self.in_use = self.in_use.saturating_sub(1);
        if conn.is_healthy() {
            self.available.push(conn);
            assert(self@.available =~= before.push(conn@));
        }
    }

    /// Marks every idle connection unhealthy, as is done with the pool of a
    /// node that failed just before the pool is dropped.
    pub fn mark_all_unhealthy(&mut self)
        ensures
            final(self)@.in_use == old(self)@.in_use,
            final(self)@.available == old(self)@.available.map_values(
                |managed: ManagedView<C>| managed.marked(),
            ),
    {
        let mut i: usize = 0;
        while i < self.available.len()
            invariant
                i <= self.available.len(),
                self.in_use == old(self).in_use,
                self.available.len() == old(self).available.len(),
                forall|j: int| 0 <= j < i ==> (#[trigger] self.available[j])@ == old(
                    self,
                ).available[j]@.marked(),
                forall|j: int|
                    i <= j < self.available.len() ==> #[trigger] self.available[j] == old(
                        self,
                    ).available[j],
            decreases self.available.len() - i,
        {
            self.available[i].mark_unhealthy();
            i += 1;
        }
        assert(self@.available =~= old(self)@.available.map_values(
            |managed: ManagedView<C>| managed.marked(),
        ));
    }

    /// The number of connections that were taken and not yet given back.
    pub fn in_use(&self) -> (count: usize)
        ensures
            count == self@.in_use,
    {
        self.in_use
    }

    /// The number of idle connections.
    pub fn idle(&self) -> (count: usize)
        ensures
            count == self@.available.len(),
    {
        self.available.len()
    }
}

} // verus!
