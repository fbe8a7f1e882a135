//! The pool of dedicated connections: per handle, one connection to each node
//! the handle has used.

use crate::error::GlideError;
use crate::handle::ConnectionHandle;
use crate::handle::HandleCounter;
use crate::managed::ManagedConnection;
use crate::managed::ManagedView;
use crate::node_pool::NodeConnectionPool;
use crate::node_pool::NodePoolView;
use crate::pool_view::mark_node;
use crate::pool_view::PoolView;
use crate::vec_map::is_listed;
use crate::vec_map::listed;
use crate::vec_map::VecMap;
use std::collections::HashMap;
use vstd::prelude::*;
use vstd::std_specs::hash::spec_keys_iter;
use vstd::std_specs::iter::IteratorSpec;

verus! {

broadcast use vstd::std_specs::hash::group_hash_axioms;

/// What a request for a connection came to.
#[derive(Debug)]
pub enum Lookup<C> {
    /// The handle's connection to the node, held before or taken from the
    /// node's free list just now.
    Connected(C),
    /// The node's free list held no healthy connection: the caller has to open
    /// one with the node's client and hand the outcome to
    /// [`ConnectionPool::complete_connection`].
    MustOpen,
}

/// The connections that one handle holds, as they are stored.
pub type HeldSet<C> = VecMap<String, ManagedConnection<C>>;

/// The connections a handle holds, by node.
pub open spec fn held_view<C>(held: HeldSet<C>) -> Map<Seq<char>, ManagedView<C>> {
    held@.map_values(|managed: ManagedConnection<C>| managed@)
}

/// The free list and in-use count of each node in `pools`.
pub open spec fn pools_view<C>(pools: VecMap<String, NodeConnectionPool<C>>) -> Map<
    Seq<char>,
    NodePoolView<C>,
> {
    pools@.map_values(|pool: NodeConnectionPool<C>| pool@)
}

/// What each handle in `sets` holds.
pub open spec fn sets_view<C>(sets: Map<u64, HeldSet<C>>) -> Map<
    u64,
    Map<Seq<char>, ManagedView<C>>,
> {
    sets.map_values(|held: HeldSet<C>| held_view(held))
}

/// Every stored set is well formed.
pub open spec fn sets_wf<C>(sets: Map<u64, HeldSet<C>>) -> bool {
    forall|handle: u64| #[trigger] sets.contains_key(handle) ==> sets[handle].wf()
}

/// The connections `held`, with those to nodes outside `active` marked
/// unhealthy.
spec fn mark_inactive<C>(
    held: Map<Seq<char>, ManagedView<C>>,
    active: Set<Seq<char>>,
) -> Map<Seq<char>, ManagedView<C>> {
    Map::new(
        |node: Seq<char>| held.contains_key(node),
        |node: Seq<char>|
            if active.contains(node) {
                held[node]
            } else {
                held[node].marked()
            },
    )
}

/// Marks unhealthy every connection in `held` whose node is not among
/// `active_nodes`.
fn mark_connections_to_inactive_nodes<C>(held: &mut HeldSet<C>, active_nodes: &[String])
    requires
        old(held).wf(),
    ensures
        final(held).wf(),
        held_view(*final(held)) == mark_inactive(held_view(*old(held)), listed(active_nodes@)),
{
    let ghost start = *held;
    let ghost active = listed(active_nodes@);
    let count: usize = held.len();
    let mut i: usize = 0;
    while i < count
        invariant
            i <= count,
            count == start.key_seq().len(),
            active == listed(active_nodes@),
            start.wf(),
            held.wf(),
            held.key_seq() == start.key_seq(),
            forall|k: int|
                0 <= k < i ==> (#[trigger] held.value_seq()[k])@ == if active.contains(
                    start.key_seq()[k],
                ) {
                    start.value_seq()[k]@
                } else {
                    start.value_seq()[k]@.marked()
                },
            forall|k: int|
                i <= k < count ==> #[trigger] held.value_seq()[k] == start.value_seq()[k],
        decreases count - i,
    {
        if !is_listed(active_nodes, held.key_at(i)) {
            held.value_at_mut(i).mark_unhealthy();
        }
        i += 1;
    }
    proof {
        let expected = mark_inactive(held_view(start), active);
        assert forall|node: Seq<char>|
            expected.contains_key(node) implies held_view(*held).contains_key(node)
            && held_view(*held)[node] == #[trigger] expected[node] by {
            let k = start.key_seq().index_of(node);
            start.lemma_entry_at(k);
            held.lemma_entry_at(k);
        }
        assert(held_view(*held) =~= expected);
    }
}

/// Manages dedicated connection sets, so that a stateful command sequence runs
/// on connections that nothing else uses.
///
/// `C` is the connection, `F` the client that opens connections to one node.
pub struct ConnectionPool<C, F> {
    dedicated_sets: HashMap<u64, HeldSet<C>>,
    pools: VecMap<String, NodeConnectionPool<C>>,
    clients: VecMap<String, F>,
}

impl<C, F> View for ConnectionPool<C, F> {
    type V = PoolView<C, F>;

    closed spec fn view(&self) -> PoolView<C, F> {
        PoolView {
            clients: self.clients@,
            pools: pools_view(self.pools),
            dedicated: sets_view(self.dedicated_sets@),
        }
    }
}

impl<C, F> ConnectionPool<C, F> {
    /// The tables are well formed, and the state is consistent.
    pub closed spec fn wf(&self) -> bool {
        &&& sets_wf(self.dedicated_sets@)
        &&& self.pools.wf()
        &&& self.clients.wf()
        &&& self@.consistent()
    }

    /// A well-formed pool is in a consistent state.
    pub proof fn lemma_consistent(&self)
        requires
            self.wf(),
        ensures
            self@.consistent(),
    {
    }

    /// A well-formed pool has finitely many nodes, handles and connections.
    pub proof fn lemma_finite(&self)
        requires
            self.wf(),
        ensures
            self@.finite(),
    {
        self.clients.lemma_view_len();
        self.pools.lemma_view_len();
        assert(self@.pools.dom() =~= self.pools@.dom());
        assert(self@.dedicated.dom() =~= self.dedicated_sets@.dom());
        assert forall|handle: u64| #[trigger]
            self@.dedicated.contains_key(handle) implies self@.dedicated[handle].dom().finite() by {
            let held = self.dedicated_sets@[handle];
            held.lemma_view_len();
            assert(self@.dedicated[handle].dom() =~= held@.dom());
        }
    }

    /// The nodes of the connections that the pool stores for `handle`, one
    /// entry for each stored connection.
    pub closed spec fn stored_nodes(&self, handle: u64) -> Seq<Seq<char>> {
        self.dedicated_sets@[handle].key_seq()
    }

    /// The pool stores one connection for each node a live handle holds a
    /// connection to: never two for the same handle and node.
    pub proof fn lemma_one_connection_per_node(&self, handle: u64)
        requires
            self.wf(),
            self@.is_live(handle),
        ensures
            self.stored_nodes(handle).no_duplicates(),
            forall|node: Seq<char>|
                self.stored_nodes(handle).contains(node) <==> self@.holds(handle, node),
    {
    }

    /// The identifiers of the live handles, each once.
    fn live_ids(&self) -> (ids: Vec<u64>)
        ensures
            ids@.no_duplicates(),
            ids@.to_set() == self.dedicated_sets@.dom(),
    {
        let mut ids: Vec<u64> = Vec::new();
        let ghost all = spec_keys_iter(&self.dedicated_sets).remaining();
        for id in keys: self.dedicated_sets.keys()
            invariant
                keys.seq() == all,
                ids@ == keys.seq().take(keys.index()).unref(),
        {
            ids.push(*id);
            assert(keys.seq().take(keys.index() + 1).unref() =~= keys.seq().take(
                keys.index(),
            ).unref().push(*id));
        }
        proof {
            assert(all.take(all.len() as int) =~= all);
            assert(ids@ =~= all.unref());
            assert forall|i: int, j: int| 0 <= i < j < ids@.len() implies ids@[i] != ids@[j] by {
                assert(all[i] != all[j]);
            }
        }
        ids
    }

    /// Stores `managed` as the connection of the live handle `id` to `node`.
    fn hold(&mut self, id: u64, node: String, managed: ManagedConnection<C>)
        requires
            sets_wf(old(self).dedicated_sets@),
            old(self).dedicated_sets@.contains_key(id),
        ensures
            sets_wf(final(self).dedicated_sets@),
            final(self).pools == old(self).pools,
            final(self).clients == old(self).clients,
            sets_view(final(self).dedicated_sets@) == sets_view(old(self).dedicated_sets@).insert(
                id,
                sets_view(old(self).dedicated_sets@)[id].insert(node@, managed@),
            ),
    {
        match self.dedicated_sets.remove(&id) {
            Some(held) => {
                let mut held = held;
                let ghost before = held;
                held.insert(node, managed);
                assert(held_view(held) =~= held_view(before).insert(node@, managed@));
                self.dedicated_sets.insert(id, held);
            },
            None => {},
        }
        assert(sets_view(self.dedicated_sets@) =~= sets_view(old(self).dedicated_sets@).insert(
            id,
            sets_view(old(self).dedicated_sets@)[id].insert(node@, managed@),
        ));
    }

    /// Marks the connection of the handle `id` to `node` unhealthy, if the
    /// handle is live and holds one.
    fn mark_held(&mut self, id: u64, node: &String)
        requires
            sets_wf(old(self).dedicated_sets@),
        ensures
            sets_wf(final(self).dedicated_sets@),
            final(self).pools == old(self).pools,
            final(self).clients == old(self).clients,
            final(self).dedicated_sets@.dom() == old(self).dedicated_sets@.dom(),
            forall|other: u64|
                other != id && old(self).dedicated_sets@.contains_key(other) ==> (
                #[trigger] final(self).dedicated_sets@[other]) == old(self).dedicated_sets@[other],
            old(self).dedicated_sets@.contains_key(id) ==> held_view(
                final(self).dedicated_sets@[id],
            ) == mark_node(held_view(old(self).dedicated_sets@[id]), node@),
    {
        match self.dedicated_sets.remove(&id) {
            Some(held) => {
                let mut held = held;
                let ghost before = held;
                match held.position(node) {
                    Some(inner) => {
                        proof {
                            before.lemma_entry_at(inner as int);
                        }
                        held.value_at_mut(inner).mark_unhealthy();
                        proof {
                            VecMap::lemma_value_replaced(&before, &held, inner as int);
                        }
                    },
                    None => {},
                }
                assert(held_view(held) =~= mark_node(held_view(before), node@));
                self.dedicated_sets.insert(id, held);
                assert(self.dedicated_sets@.dom() =~= old(self).dedicated_sets@.dom());
            },
            None => {
                assert(self.dedicated_sets@ =~= old(self).dedicated_sets@);
            },
        }
    }

    /// Drops the connections of the handle `id` to nodes that are not among
    /// `active_nodes`, marked unhealthy on their way out.
    fn drop_inactive(&mut self, id: u64, active_nodes: &[String])
        requires
            sets_wf(old(self).dedicated_sets@),
        ensures
            sets_wf(final(self).dedicated_sets@),
            final(self).pools == old(self).pools,
            final(self).clients == old(self).clients,
            final(self).dedicated_sets@.dom() == old(self).dedicated_sets@.dom(),
            forall|other: u64|
                other != id && old(self).dedicated_sets@.contains_key(other) ==> (
                #[trigger] final(self).dedicated_sets@[other]) == old(self).dedicated_sets@[other],
            old(self).dedicated_sets@.contains_key(id) ==> held_view(
                final(self).dedicated_sets@[id],
            ) == held_view(old(self).dedicated_sets@[id]).restrict(listed(active_nodes@)),
    {
        match self.dedicated_sets.remove(&id) {
            Some(held) => {
                let mut held = held;
                let ghost before = held;
                mark_connections_to_inactive_nodes(&mut held, active_nodes);
                let ghost marked = held;
                held.retain_listed(active_nodes);
                proof {
                    let active = listed(active_nodes@);
                    assert(held_view(held) =~= held_view(marked).restrict(active));
                    assert(held_view(marked).restrict(active) =~= held_view(before).restrict(
                        active,
                    ));
                }
                self.dedicated_sets.insert(id, held);
                assert(self.dedicated_sets@.dom() =~= old(self).dedicated_sets@.dom());
            },
            None => {
                assert(self.dedicated_sets@ =~= old(self).dedicated_sets@);
            },
        }
    }

    /// A pool that knows no node and no handle.
    pub fn new() -> (pool: Self)
        ensures
            pool.wf(),
            pool@ == PoolView::<C, F>::empty(),
    {
        let pool = ConnectionPool {
            dedicated_sets: HashMap::new(),
            pools: VecMap::new(),
            clients: VecMap::new(),
        };
        assert(pool@.pools =~= Map::empty());
        assert(pool@.dedicated =~= Map::empty());
        pool
    }

    /// Registers the client that opens connections to `node_id`, in place of
    /// the one registered before, if any.
    pub fn register_node(&mut self, node_id: String, client: F)
        requires
            old(self).wf(),
        ensures
            final(self).wf(),
            final(self)@ == old(self)@.register(node_id@, client),
    {
        self.clients.insert(node_id, client);
        proof {
            old(self)@.lemma_register_consistent(node_id@, client);
        }
    }

    /// Issues a new handle, which holds no connection yet.
    pub fn acquire_dedicated(&mut self, counter: &mut HandleCounter) -> (handle: ConnectionHandle)
        requires
            old(self).wf(),
        ensures
            final(self).wf(),
            handle@ == old(counter).next_id(),
            final(counter).next_id() == crate::handle::successor(old(counter).next_id()),
            final(self)@ == old(self)@.acquire(handle@),
    {
        let handle = ConnectionHandle::new(counter);
        let held: HeldSet<C> = VecMap::new();
        assert(held_view(held) =~= Map::empty());
        self.dedicated_sets.insert(handle.id(), held);
        proof {
            assert(self@.dedicated =~= old(self)@.acquire(handle@).dedicated);
            old(self)@.lemma_acquire_consistent(handle@);
        }
        handle
    }

    /// The handle's connection to `node_id`: the one it holds if that is
    /// healthy, else the healthy connection that was parked last in the node's
    /// free list, which the handle holds from now on and which counts as in
    /// use. Where the free list has none, the answer is [`Lookup::MustOpen`]
    /// and the pool stays as it is.
    ///
    /// Fails with `InvalidHandle` if the handle is not live, and with
    /// `UnknownNode` if the handle holds no healthy connection to the node and
    /// no client is registered for it. A request that fails leaves the pool as
    /// it is.
    pub fn get_connection(&mut self, handle: ConnectionHandle, node_id: &str) -> (result: Result<
        Lookup<C>,
        GlideError,
    >) where C: Clone
        requires
            old(self).wf(),
            old(self)@.reuses(handle@, node_id@) ==> old(self)@.node_pool(node_id@).in_use
                < usize::MAX,
        ensures
            final(self).wf(),
            final(self)@ == old(self)@.get(handle@, node_id@),
            !old(self)@.is_live(handle@) ==> result matches Err(GlideError::InvalidHandle),
            old(self)@.holds_healthy(handle@, node_id@) ==> (result matches Ok(
                Lookup::Connected(conn),
            ) && cloned(old(self)@.dedicated[handle@][node_id@].conn, conn)),
            old(self)@.is_live(handle@) && !old(self)@.holds_healthy(handle@, node_id@) && !old(
                self,
            )@.clients.contains_key(node_id@) ==> result matches Err(GlideError::UnknownNode),
            old(self)@.reuses(handle@, node_id@) ==> (result matches Ok(Lookup::Connected(conn))
                && cloned(old(self)@.node_pool(node_id@).reusable().unwrap().conn, conn)),
            old(self)@.must_open(handle@, node_id@) ==> result matches Ok(Lookup::MustOpen),
            result matches Ok(Lookup::Connected(conn)) ==> final(self)@.holds_healthy(
                handle@,
                node_id@,
            ) && cloned(final(self)@.dedicated[handle@][node_id@].conn, conn),
            !(result matches Ok(Lookup::Connected(_))) ==> final(self)@ == old(self)@,
    {
        let node = node_id.to_owned();
        let id: u64 = handle.id();
        match self.dedicated_sets.get(&id) {
            Some(held) => {
                match held.get(&node) {
                    Some(managed) => {
                        if managed.is_healthy() {
                            let conn = managed.connection().clone();
                            return Ok(Lookup::Connected(conn));
                        }
                    },
                    None => {},
                }
            },
            None => {
                return Err(GlideError::InvalidHandle);
            },
        }
        if !self.clients.contains_key(&node) {
            return Err(GlideError::UnknownNode);
        }
        let slot: usize = match self.pools.position(&node) {
            Some(slot) => slot,
            None => {
                return Ok(Lookup::MustOpen);
            },
        };
        let ghost pools_before = self.pools;
        proof {
            pools_before.lemma_entry_at(slot as int);
            crate::node_pool::lemma_last_healthy(old(self)@.node_pool(node_id@).available);
        }
        let reused = self.pools.value_at_mut(slot).acquire();
        proof {
            VecMap::lemma_value_replaced(&pools_before, &self.pools, slot as int);
        }
        match reused {
            Some(managed) => {
                let conn = managed.connection().clone();
                self.hold(id, node, managed);
                proof {
                    assert(self@.pools =~= old(self)@.get(handle@, node_id@).pools);
                    assert(self@.dedicated =~= old(self)@.get(handle@, node_id@).dedicated);
                    old(self)@.lemma_get_consistent(handle@, node_id@);
                }
                Ok(Lookup::Connected(conn))
            },
            None => {
                proof {
                    let pool = old(self)@.node_pool(node_id@);
                    assert(pool.all_healthy());
                    assert(pool.available.len() == 0) by {
                        if pool.available.len() > 0 {
                            assert(pool.available[pool.available.len() - 1].healthy);
                        }
                    }
                    assert(pool.after_acquire().available =~= pool.available);
                    assert(self@.pools =~= old(self)@.pools);
                }
                Ok(Lookup::MustOpen)
            },
        }
    }

    /// Finishes a request that was answered with [`Lookup::MustOpen`], given
    /// what the node's client returned: `None` if it could not open a
    /// connection. A connection that was opened is installed for the handle,
    /// in place of what the handle held for the node; the node's pool, which
    /// is made if the node had none, counts it as in use; and a clone of it is
    /// returned.
    ///
    /// Fails with `ConnectionOpenFailed` if there is no connection, with
    /// `InvalidHandle` if the handle is not live, and with `UnknownNode` if no
    /// client is registered for the node. A call that fails leaves the pool as
    /// it is.
    pub fn complete_connection(
        &mut self,
        handle: ConnectionHandle,
        node_id: &str,
        opened: Option<C>,
    ) -> (result: Result<C, GlideError>) where C: Clone
        requires
            old(self).wf(),
            opened.is_some() && old(self)@.installs(handle@, node_id@) ==> old(self)@.node_pool(
                node_id@,
            ).in_use < usize::MAX,
        ensures
            final(self).wf(),
            final(self)@ == match opened {
                Some(conn) => old(self)@.install(handle@, node_id@, conn),
                None => old(self)@,
            },
            match opened {
                Some(conn) => if !old(self)@.is_live(handle@) {
                    result matches Err(GlideError::InvalidHandle)
                } else if !old(self)@.clients.contains_key(node_id@) {
                    result matches Err(GlideError::UnknownNode)
                } else {
                    result matches Ok(given) && cloned(conn, given)
                },
                None => result matches Err(GlideError::ConnectionOpenFailed),
            },
            result matches Ok(given) ==> final(self)@.holds_healthy(handle@, node_id@) && cloned(
                final(self)@.dedicated[handle@][node_id@].conn,
                given,
            ),
            result is Err ==> final(self)@ == old(self)@,
    {
        let conn = match opened {
            Some(conn) => conn,
            None => {
                return Err(GlideError::ConnectionOpenFailed);
            },
        };
        let node = node_id.to_owned();
        let id: u64 = handle.id();
        if !self.dedicated_sets.contains_key(&id) {
            return Err(GlideError::InvalidHandle);
        }
        if !self.clients.contains_key(&node) {
            return Err(GlideError::UnknownNode);
        }
        let slot: usize = match self.pools.position(&node) {
            Some(slot) => slot,
            None => {
                let slot: usize = self.pools.len();
                self.pools.insert(node_id.to_owned(), NodeConnectionPool::new());
                slot
            },
        };
        let ghost pools_before = self.pools;
        proof {
            pools_before.lemma_entry_at(slot as int);
        }
        self.pools.value_at_mut(slot).count_opened();
        proof {
            VecMap::lemma_value_replaced(&pools_before, &self.pools, slot as int);
        }
        let given = conn.clone();
        let managed = ManagedConnection::new(conn, node);
        self.hold(id, node_id.to_owned(), managed);
        proof {
            assert(self@.dedicated =~= old(self)@.install(handle@, node_id@, conn).dedicated);
            assert(self@.pools =~= old(self)@.install(handle@, node_id@, conn).pools);
            old(self)@.lemma_install_consistent(handle@, node_id@, conn);
        }
        Ok(given)
    }

    /// Marks the connection of `handle` to `node_id` unhealthy, so that the
    /// next request for it takes another one. Does nothing if the handle holds
    /// no connection to the node.
    pub fn mark_connection_unhealthy(&mut self, handle: ConnectionHandle, node_id: &str)
        requires
            old(self).wf(),
        ensures
            final(self).wf(),
            final(self)@ == old(self)@.mark(handle@, node_id@),
    {
        let node = node_id.to_owned();
        self.mark_held(handle.id(), &node);
        proof {
            assert(self@.dedicated =~= old(self)@.mark(handle@, node_id@).dedicated);
            old(self)@.lemma_mark_consistent(handle@, node_id@);
        }
    }

    /// Releases `handle`: each connection it holds goes back to the free list
    /// of its node if it is healthy and the node still has a pool, and is
    /// dropped otherwise. Does nothing if the handle is not live.
    pub fn release_dedicated(&mut self, handle: ConnectionHandle)
        requires
            old(self).wf(),
        ensures
            final(self).wf(),
            final(self)@ == old(self)@.release(handle@),
    {
        let ghost start = self@;
        let id: u64 = handle.id();
        let mut held = match self.dedicated_sets.remove(&id) {
            Some(held) => held,
            None => {
                assert(self@.dedicated =~= start.dedicated);
                return ;
            },
        };
        let ghost held_start = held_view(held);
        assert(sets_view(self.dedicated_sets@) =~= start.dedicated.remove(handle@));
        loop
            invariant
                held.wf(),
                self.pools.wf(),
                self.clients == old(self).clients,
                self.clients.wf(),
                sets_view(self.dedicated_sets@) == start.dedicated.remove(handle@),
                sets_wf(self.dedicated_sets@),
                start == old(self)@,
                start.consistent(),
                start.is_live(handle@),
                held_start == start.dedicated[handle@],
                forall|node: Seq<char>| #[trigger]
                    held_view(held).contains_key(node) ==> held_start.contains_key(node)
                        && held_start[node] == held_view(held)[node],
                forall|node: Seq<char>|
                    pools_view(self.pools).contains_key(node) <==> start.pools.contains_key(node),
                forall|node: Seq<char>| #[trigger]
                    start.pools.contains_key(node) ==> pools_view(self.pools)[node] == if held_start
                        .contains_key(node) && !held_view(held).contains_key(node) {
                        start.pools[node].after_release(held_start[node])
                    } else {
                        start.pools[node]
                    },
            decreases held.key_seq().len(),
        {
            let ghost held_before = held;
            match held.pop() {
                Some((node, managed)) => {
                    assert(held_view(held) =~= held_view(held_before).remove(node@));
                    assert(held_view(held_before).contains_key(node@));
                    match self.pools.position(&node) {
                        Some(slot) => {
                            let ghost pools_before = self.pools;
                            proof {
                                pools_before.lemma_entry_at(slot as int);
                            }
                            self.pools.value_at_mut(slot).release(managed);
                            proof {
                                VecMap::lemma_value_replaced(
                                    &pools_before,
                                    &self.pools,
                                    slot as int,
                                );
                                assert(pools_view(self.pools) =~= pools_view(pools_before).insert(
                                    node@,
                                    pools_view(pools_before)[node@].after_release(managed@),
                                ));
                            }
                        },
                        None => {},
                    }
                },
                None => {
                    proof {
                        assert(held_view(held) =~= Map::empty());
                        let expected = start.release(handle@).pools;
                        assert forall|node: Seq<char>|
                            expected.contains_key(node) implies self@.pools.contains_key(node)
                            && self@.pools[node] == #[trigger] expected[node] by {
                            assert(start.pools.contains_key(node));
                            assert(!held_view(held).contains_key(node));
                        }
                        assert forall|node: Seq<char>|
                            self@.pools.contains_key(node) implies expected.contains_key(node) by {
                            assert(pools_view(self.pools).contains_key(node));
                        }
                        assert(self@.pools =~= expected);
                        start.lemma_release_consistent(handle@);
                    }
                    return ;
                },
            }
        }
    }

    /// Reacts to the failure of `old_node_id`: every connection to it that a
    /// handle holds is marked unhealthy, and its pool is dropped. Nothing is
    /// opened towards `new_node_id`: a handle gets its connection there when it
    /// first asks for one.
    #[allow(unused_variables)]
    pub fn handle_failover(&mut self, old_node_id: &str, new_node_id: &str)
        requires
            old(self).wf(),
        ensures
            final(self).wf(),
            final(self)@ == old(self)@.fail_over(old_node_id@),
    {
        let old_node = old_node_id.to_owned();
        let ids = self.live_ids();
        let ghost start = self.dedicated_sets@;
        let mut i: usize = 0;
        while i < ids.len()
            invariant
                i <= ids.len(),
                ids@.no_duplicates(),
                ids@.to_set() == start.dom(),
                old_node@ == old_node_id@,
                start == old(self).dedicated_sets@,
                sets_wf(self.dedicated_sets@),
                self.dedicated_sets@.dom() == start.dom(),
                forall|k: int|
                    0 <= k < i ==> held_view(self.dedicated_sets@[#[trigger] ids@[k]]) == mark_node(
                        held_view(start[ids@[k]]),
                        old_node_id@,
                    ),
                forall|k: int|
                    i <= k < ids.len() ==> self.dedicated_sets@[#[trigger] ids@[k]]
                        == start[ids@[k]],
                self.pools == old(self).pools,
                self.clients == old(self).clients,
            decreases ids.len() - i,
        {
            assert(start.dom().contains(ids@[i as int])) by {
                assert(ids@.contains(ids@[i as int]));
            }
            self.mark_held(ids[i], &old_node);
            i += 1;
        }
        match self.pools.remove(&old_node) {
            Some(pool) => {
                let mut pool = pool;
                pool.mark_all_unhealthy();
            },
            None => {},
        }
        proof {
            let before = old(self)@;
            let expected = before.fail_over(old_node_id@);
            assert forall|h: u64|
                expected.dedicated.contains_key(h) implies self@.dedicated.contains_key(h)
                && self@.dedicated[h] == #[trigger] expected.dedicated[h] by {
                assert(ids@.to_set().contains(h));
                let k = ids@.index_of(h);
                assert(ids@[k] == h);
            }
            assert(self@.dedicated =~= expected.dedicated);
            assert(self@.pools =~= expected.pools);
            before.lemma_fail_over_consistent(old_node_id@);
        }
    }

    /// Reacts to a change of the cluster's nodes: of every node that is not
    /// among `active_nodes`, the registration, the pool and every connection a
    /// handle holds to it are dropped, the connections marked unhealthy on
    /// their way out. What belongs to an active node stays as it is.
    pub fn handle_topology_change(&mut self, active_nodes: &[String])
        requires
            old(self).wf(),
        ensures
            final(self).wf(),
            final(self)@ == old(self)@.change_topology(listed(active_nodes@)),
    {
        let ghost active = listed(active_nodes@);
        let ids = self.live_ids();
        let ghost start = self.dedicated_sets@;
        let mut i: usize = 0;
        while i < ids.len()
            invariant
                i <= ids.len(),
                ids@.no_duplicates(),
                ids@.to_set() == start.dom(),
                active == listed(active_nodes@),
                start == old(self).dedicated_sets@,
                sets_wf(self.dedicated_sets@),
                self.dedicated_sets@.dom() == start.dom(),
                forall|k: int|
                    0 <= k < i ==> held_view(self.dedicated_sets@[#[trigger] ids@[k]]) == held_view(
                        start[ids@[k]],
                    ).restrict(active),
                forall|k: int|
                    i <= k < ids.len() ==> self.dedicated_sets@[#[trigger] ids@[k]]
                        == start[ids@[k]],
                self.pools == old(self).pools,
                self.clients == old(self).clients,
            decreases ids.len() - i,
        {
            assert(start.dom().contains(ids@[i as int])) by {
                assert(ids@.contains(ids@[i as int]));
            }
            self.drop_inactive(ids[i], active_nodes);
            i += 1;
        }
        self.pools.retain_listed(active_nodes);
        self.clients.retain_listed(active_nodes);
        proof {
            let before = old(self)@;
            let expected = before.change_topology(active);
            assert forall|h: u64|
                expected.dedicated.contains_key(h) implies self@.dedicated.contains_key(h)
                && self@.dedicated[h] == #[trigger] expected.dedicated[h] by {
                assert(ids@.to_set().contains(h));
                let k = ids@.index_of(h);
                assert(ids@[k] == h);
            }
            assert(self@.dedicated =~= expected.dedicated);
            assert(self@.pools =~= expected.pools);
            before.lemma_change_topology_consistent(active);
        }
    }

    /// The client registered for `node_id`, if there is one.
    pub fn client(&self, node_id: &str) -> (client: Option<&F>)
        requires
            self.wf(),
        ensures
            match client {
                Some(client) => self@.clients.contains_key(node_id@) && *client
                    == self@.clients[node_id@],
                None => !self@.clients.contains_key(node_id@),
            },
    {
        let node = node_id.to_owned();
        self.clients.get(&node)
    }

    /// Whether `handle` was acquired and not released since.
    pub fn is_live(&self, handle: ConnectionHandle) -> (live: bool)
        requires
            self.wf(),
        ensures
            live == self@.is_live(handle@),
    {
        let id: u64 = handle.id();
        self.dedicated_sets.contains_key(&id)
    }

    /// Whether the connection that `handle` holds to `node_id` is healthy;
    /// `None` if it holds none.
    pub fn health(&self, handle: ConnectionHandle, node_id: &str) -> (health: Option<bool>)
        requires
            self.wf(),
        ensures
            health == if self@.holds(handle@, node_id@) {
                Some(self@.dedicated[handle@][node_id@].healthy)
            } else {
                None::<bool>
            },
    {
        let node = node_id.to_owned();
        let id: u64 = handle.id();
        match self.dedicated_sets.get(&id) {
            Some(held) => match held.get(&node) {
                Some(managed) => Some(managed.is_healthy()),
                None => None,
            },
            None => None,
        }
    }

    /// How many connections of `node_id` count as in use.
    pub fn in_use(&self, node_id: &str) -> (count: usize)
        requires
            self.wf(),
        ensures
            count == self@.node_pool(node_id@).in_use,
    {
        let node = node_id.to_owned();
        match self.pools.get(&node) {
            Some(pool) => pool.in_use(),
            None => 0,
        }
    }

    /// How many idle connections the free list of `node_id` holds.
    pub fn idle(&self, node_id: &str) -> (count: usize)
        requires
            self.wf(),
        ensures
            count == self@.node_pool(node_id@).available.len(),
    {
        let node = node_id.to_owned();
        match self.pools.get(&node) {
            Some(pool) => pool.idle(),
            None => 0,
        }
    }
}

impl<C, F> Default for ConnectionPool<C, F> {
    fn default() -> (pool: Self)
        ensures
            pool.wf(),
            pool@ == PoolView::<C, F>::empty(),
    {
        Self::new()
    }
}

} // verus!
