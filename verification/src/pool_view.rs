//! The pool as a mathematical state, and the steps that take one state to
//! the next.
//!
//! Every operation of [`crate::connection_pool::ConnectionPool`] is specified
//! as a function on [`PoolView`]; what holds of all pools is proved here, of
//! these functions.

use crate::counting::lemma_sum_counts;
use crate::counting::lemma_sum_insert;
use crate::counting::lemma_sum_le;
use crate::counting::lemma_sum_split;
use crate::counting::sum_over;
use crate::managed::ManagedView;
use crate::node_pool::NodePoolView;
use vstd::prelude::*;
use vstd::set_lib::lemma_len_intersect;
use vstd::set_lib::lemma_len_subset;
use vstd::set_lib::lemma_set_disjoint_lens;

verus! {

/// The state of a pool: who is registered, what is idle, and what each handle
/// holds.
pub struct PoolView<C, F> {
    /// The client registered for each node.
    pub clients: Map<Seq<char>, F>,
    /// The free list and in-use count of each node that was used so far.
    pub pools: Map<Seq<char>, NodePoolView<C>>,
    /// For each live handle, the connection it holds to each node.
    pub dedicated: Map<u64, Map<Seq<char>, ManagedView<C>>>,
}

/// What a handle asks of the pool between the moment it is issued and the
/// moment it is released.
pub enum Request<C> {
    /// The handle asks for its connection to a node.
    Get(Seq<char>),
    /// A connection that was opened for the handle is installed for a node.
    Install(Seq<char>, C),
    /// The handle's connection to a node is marked unhealthy.
    Mark(Seq<char>),
}

/// The connections `held`, with the one to `node` marked unhealthy if there
/// is one.
pub open spec fn mark_node<C>(held: Map<Seq<char>, ManagedView<C>>, node: Seq<char>) -> Map<
    Seq<char>,
    ManagedView<C>,
> {
    if held.contains_key(node) {
        held.insert(node, held[node].marked())
    } else {
        held
    }
}

impl<C, F> PoolView<C, F> {
    /// A pool that knows no node and no handle.
    pub open spec fn empty() -> Self {
        PoolView { clients: Map::empty(), pools: Map::empty(), dedicated: Map::empty() }
    }

    /// Whether `handle` is live.
    pub open spec fn is_live(self, handle: u64) -> bool {
        self.dedicated.contains_key(handle)
    }

    /// Whether `handle` holds a connection to `node`, healthy or not.
    pub open spec fn holds(self, handle: u64, node: Seq<char>) -> bool {
        self.dedicated.contains_key(handle) && self.dedicated[handle].contains_key(node)
    }

    /// Whether `handle` holds a healthy connection to `node`.
    pub open spec fn holds_healthy(self, handle: u64, node: Seq<char>) -> bool {
        self.holds(handle, node) && self.dedicated[handle][node].healthy
    }

    /// The free list and in-use count of `node`; those of a node that was
    /// never used are empty.
    pub open spec fn node_pool(self, node: Seq<char>) -> NodePoolView<C> {
        if self.pools.contains_key(node) {
            self.pools[node]
        } else {
            NodePoolView::empty()
        }
    }

    /// Whether a request of `handle` for `node` has to take a connection from
    /// the node's pool: the handle is live, holds no healthy connection to the
    /// node, and the node is registered.
    pub open spec fn draws(self, handle: u64, node: Seq<char>) -> bool {
        self.is_live(handle) && !self.holds_healthy(handle, node) && self.clients.contains_key(
            node,
        )
    }

    /// The number of idle connections of `node`.
    pub open spec fn idle(self, node: Seq<char>) -> nat {
        self.node_pool(node).available.len()
    }

    /// The length of each node's free list.
    pub open spec fn idle_by_node(self) -> spec_fn(Seq<char>) -> nat {
        |node: Seq<char>| self.pools[node].available.len()
    }

    /// The number of idle connections of all nodes together.
    pub open spec fn idle_total(self) -> nat {
        sum_over(self.pools.dom(), self.idle_by_node())
    }

    /// The nodes to which `handle` holds a healthy connection.
    pub open spec fn healthy_nodes(self, handle: u64) -> Set<Seq<char>> {
        Set::new(|node: Seq<char>| self.holds_healthy(handle, node))
    }

    /// The nodes to which `handle` holds an unhealthy connection.
    pub open spec fn unhealthy_nodes(self, handle: u64) -> Set<Seq<char>> {
        Set::new(|node: Seq<char>| self.holds(handle, node) && !self.holds_healthy(handle, node))
    }

    /// Every table of the state has finitely many entries.
    pub open spec fn finite(self) -> bool {
        &&& self.clients.dom().finite()
        &&& self.pools.dom().finite()
        &&& self.dedicated.dom().finite()
        &&& forall|handle: u64| #[trigger]
            self.dedicated.contains_key(handle) ==> self.dedicated[handle].dom().finite()
    }

    /// The state after `client` was registered for `node`: the last
    /// registration of a node is the one that counts.
    pub open spec fn register(self, node: Seq<char>, client: F) -> Self {
        PoolView { clients: self.clients.insert(node, client), ..self }
    }

    /// The state after `handle` was issued: it is live and holds nothing.
    pub open spec fn acquire(self, handle: u64) -> Self {
        PoolView { dedicated: self.dedicated.insert(handle, Map::empty()), ..self }
    }

    /// Whether a request of `handle` for `node` is answered from the node's
    /// free list: it draws from the pool, and the pool has a connection to
    /// hand out.
    pub open spec fn reuses(self, handle: u64, node: Seq<char>) -> bool {
        self.draws(handle, node) && self.node_pool(node).reusable().is_some()
    }

    /// Whether a request of `handle` for `node` needs a connection to be
    /// opened: it draws from the pool, and the pool has none to hand out.
    pub open spec fn must_open(self, handle: u64, node: Seq<char>) -> bool {
        self.draws(handle, node) && self.node_pool(node).reusable().is_none()
    }

    /// The state after `handle` asked for its connection to `node`. Where the
    /// request is answered from the node's free list, the pool loses the
    /// connection it hands out and counts it as in use, and the handle holds
    /// it from now on. In every other case the state stays as it is: nothing
    /// is counted or made for a connection that still has to be opened.
    pub open spec fn get(self, handle: u64, node: Seq<char>) -> Self {
        if self.reuses(handle, node) {
            PoolView {
                pools: self.pools.insert(node, self.node_pool(node).after_acquire()),
                dedicated: self.dedicated.insert(
                    handle,
                    self.dedicated[handle].insert(node, self.node_pool(node).reusable().unwrap()),
                ),
                ..self
            }
        } else {
            self
        }
    }

    /// Whether a connection that was opened for `handle` and `node` is
    /// installed: the handle is live and the node is registered.
    pub open spec fn installs(self, handle: u64, node: Seq<char>) -> bool {
        self.is_live(handle) && self.clients.contains_key(node)
    }

    /// The state after a freshly opened connection was installed for `handle`
    /// and `node`: the handle holds it in place of what it held there, and the
    /// node's pool, which is made if the node had none, counts it as in use.
    pub open spec fn install(self, handle: u64, node: Seq<char>, conn: C) -> Self {
        if self.installs(handle, node) {
            PoolView {
                pools: self.pools.insert(node, self.node_pool(node).after_open()),
                dedicated: self.dedicated.insert(
                    handle,
                    self.dedicated[handle].insert(node, ManagedView::fresh(conn, node)),
                ),
                ..self
            }
        } else {
            self
        }
    }

    /// The state after the connection of `handle` to `node` was marked
    /// unhealthy.
    pub open spec fn mark(self, handle: u64, node: Seq<char>) -> Self {
        if self.holds(handle, node) {
            PoolView {
                dedicated: self.dedicated.insert(
                    handle,
                    self.dedicated[handle].insert(node, self.dedicated[handle][node].marked()),
                ),
                ..self
            }
        } else {
            self
        }
    }

    /// The state after one request of `handle`.
    pub open spec fn request(self, handle: u64, request: Request<C>) -> Self {
        match request {
            Request::Get(node) => self.get(handle, node),
            Request::Install(node, conn) => self.install(handle, node, conn),
            Request::Mark(node) => self.mark(handle, node),
        }
    }

    /// The state after `handle` made the requests in `requests`, one after
    /// the other.
    pub open spec fn requests(self, handle: u64, requests: Seq<Request<C>>) -> Self
        decreases requests.len(),
    {
        if requests.len() == 0 {
            self
        } else {
            self.requests(handle, requests.drop_last()).request(handle, requests.last())
        }
    }

    /// The state after `handle` was released: it is no longer live, and each
    /// connection it held went back to the pool of its node, if that node
    /// still has one.
    pub open spec fn release(self, handle: u64) -> Self {
        if self.is_live(handle) {
            PoolView {
                pools: Map::new(
                    |node: Seq<char>| self.pools.contains_key(node),
                    |node: Seq<char>|
                        if self.dedicated[handle].contains_key(node) {
                            self.pools[node].after_release(self.dedicated[handle][node])
                        } else {
                            self.pools[node]
                        },
                ),
                dedicated: self.dedicated.remove(handle),
                ..self
            }
        } else {
            self
        }
    }

    /// The state after `old_node` failed over: every connection to it that a
    /// handle holds is unhealthy, and its pool is gone.
    pub open spec fn fail_over(self, old_node: Seq<char>) -> Self {
        PoolView {
            pools: self.pools.remove(old_node),
            dedicated: self.dedicated.map_values(
                |held: Map<Seq<char>, ManagedView<C>>| mark_node(held, old_node),
            ),
            ..self
        }
    }

    /// The state after the cluster shrank to `active`: nothing is left of any
    /// other node, neither its registration, nor its pool, nor a connection
    /// to it.
    pub open spec fn change_topology(self, active: Set<Seq<char>>) -> Self {
        PoolView {
            clients: self.clients.restrict(active),
            pools: self.pools.restrict(active),
            dedicated: self.dedicated.map_values(
                |held: Map<Seq<char>, ManagedView<C>>| held.restrict(active),
            ),
        }
    }

    /// What holds of every pool: idle connections are healthy, and every
    /// connection, idle or held, stands under the node it was opened against.
    pub open spec fn consistent(self) -> bool {
        &&& forall|node: Seq<char>| #[trigger]
            self.pools.contains_key(node) ==> self.pools[node].all_healthy()
        &&& forall|node: Seq<char>, i: int|
            self.pools.contains_key(node) && 0 <= i < self.pools[node].available.len() ==> (
                #[trigger] self.pools[node].available[i]).node == node
        &&& forall|handle: u64, node: Seq<char>|
            self.holds(handle, node) ==> (#[trigger] self.dedicated[handle][node]).node == node
    }

    /// The empty state is consistent.
    pub proof fn lemma_empty_consistent()
        ensures
            Self::empty().consistent(),
    {
    }

    /// Registering a client keeps the state consistent.
    pub proof fn lemma_register_consistent(self, node: Seq<char>, client: F)
        requires
            self.consistent(),
        ensures
            self.register(node, client).consistent(),
    {
        let after = self.register(node, client);
        assert forall|h: u64, n: Seq<char>| after.holds(h, n) implies (
            #[trigger] after.dedicated[h][n]).node == n by {
            assert(self.holds(h, n));
        }
    }

    /// Issuing a handle keeps the state consistent.
    pub proof fn lemma_acquire_consistent(self, handle: u64)
        requires
            self.consistent(),
        ensures
            self.acquire(handle).consistent(),
    {
        let after = self.acquire(handle);
        assert forall|h: u64, n: Seq<char>| after.holds(h, n) implies (
            #[trigger] after.dedicated[h][n]).node == n by {
            assert(h != handle);
            assert(self.holds(h, n));
        }
    }

    /// Asking for a connection keeps the state consistent.
    pub proof fn lemma_get_consistent(self, handle: u64, node: Seq<char>)
        requires
            self.consistent(),
        ensures
            self.get(handle, node).consistent(),
    {
        let after = self.get(handle, node);
        if self.reuses(handle, node) {
            let before_pool = self.node_pool(node);
            crate::node_pool::lemma_last_healthy(before_pool.available);
            assert(self.pools.contains_key(node));
            assert forall|n: Seq<char>| #[trigger]
                after.pools.contains_key(n) implies after.pools[n].all_healthy() by {
                if n != node {
                    assert(self.pools.contains_key(n));
                }
            }
            assert forall|n: Seq<char>, i: int|
                after.pools.contains_key(n) && 0 <= i < after.pools[n].available.len() implies (
                #[trigger] after.pools[n].available[i]).node == n by {
                if n != node {
                    assert(self.pools.contains_key(n));
                } else {
                    assert(after.pools[n].available[i] == before_pool.available[i]);
                }
            }
            assert forall|h: u64, n: Seq<char>| after.holds(h, n) implies (
                #[trigger] after.dedicated[h][n]).node == n by {
                if !(h == handle && n == node) {
                    assert(self.holds(h, n));
                }
            }
        }
    }

    /// Installing a fresh connection keeps the state consistent.
    pub proof fn lemma_install_consistent(self, handle: u64, node: Seq<char>, conn: C)
        requires
            self.consistent(),
        ensures
            self.install(handle, node, conn).consistent(),
    {
        let after = self.install(handle, node, conn);
        if self.installs(handle, node) {
            assert forall|n: Seq<char>| #[trigger]
                after.pools.contains_key(n) implies after.pools[n].all_healthy() by {
                if n != node {
                    assert(self.pools.contains_key(n));
                }
            }
            assert forall|n: Seq<char>, i: int|
                after.pools.contains_key(n) && 0 <= i < after.pools[n].available.len() implies (
                #[trigger] after.pools[n].available[i]).node == n by {
                if n != node {
                    assert(self.pools.contains_key(n));
                }
            }
            assert forall|h: u64, n: Seq<char>| after.holds(h, n) implies (
                #[trigger] after.dedicated[h][n]).node == n by {
                if !(h == handle && n == node) {
                    assert(self.holds(h, n));
                }
            }
        }
    }

    /// Marking a connection unhealthy keeps the state consistent.
    pub proof fn lemma_mark_consistent(self, handle: u64, node: Seq<char>)
        requires
            self.consistent(),
        ensures
            self.mark(handle, node).consistent(),
    {
        let after = self.mark(handle, node);
        assert forall|h: u64, n: Seq<char>| after.holds(h, n) implies (
            #[trigger] after.dedicated[h][n]).node == n by {
            assert(self.holds(h, n));
        }
    }

    /// Releasing a handle keeps the state consistent.
    pub proof fn lemma_release_consistent(self, handle: u64)
        requires
            self.consistent(),
        ensures
            self.release(handle).consistent(),
    {
        let after = self.release(handle);
        if self.is_live(handle) {
            let held = self.dedicated[handle];
            assert forall|n: Seq<char>| #[trigger]
                after.pools.contains_key(n) implies after.pools[n].all_healthy() by {
                assert(self.pools.contains_key(n));
            }
            assert forall|n: Seq<char>, i: int|
                after.pools.contains_key(n) && 0 <= i < after.pools[n].available.len() implies (
                #[trigger] after.pools[n].available[i]).node == n by {
                assert(self.pools.contains_key(n));
                if held.contains_key(n) {
                    assert(self.holds(handle, n));
                    if i < self.pools[n].available.len() {
                        assert(after.pools[n].available[i] == self.pools[n].available[i]);
                    }
                }
            }
            assert forall|h: u64, n: Seq<char>| after.holds(h, n) implies (
                #[trigger] after.dedicated[h][n]).node == n by {
                assert(self.holds(h, n));
            }
        }
    }

    /// A failover keeps the state consistent.
    pub proof fn lemma_fail_over_consistent(self, old_node: Seq<char>)
        requires
            self.consistent(),
        ensures
            self.fail_over(old_node).consistent(),
    {
        let after = self.fail_over(old_node);
        assert forall|n: Seq<char>| #[trigger]
            after.pools.contains_key(n) implies after.pools[n].all_healthy() by {
            assert(self.pools.contains_key(n));
        }
        assert forall|n: Seq<char>, i: int|
            after.pools.contains_key(n) && 0 <= i < after.pools[n].available.len() implies (
            #[trigger] after.pools[n].available[i]).node == n by {
            assert(self.pools.contains_key(n));
        }
        assert forall|h: u64, n: Seq<char>| after.holds(h, n) implies (
            #[trigger] after.dedicated[h][n]).node == n by {
            assert(self.holds(h, n));
        }
    }

    /// A change of topology keeps the state consistent.
    pub proof fn lemma_change_topology_consistent(self, active: Set<Seq<char>>)
        requires
            self.consistent(),
        ensures
            self.change_topology(active).consistent(),
    {
        let after = self.change_topology(active);
        assert forall|n: Seq<char>| #[trigger]
            after.pools.contains_key(n) implies after.pools[n].all_healthy() by {
            assert(self.pools.contains_key(n));
        }
        assert forall|n: Seq<char>, i: int|
            after.pools.contains_key(n) && 0 <= i < after.pools[n].available.len() implies (
            #[trigger] after.pools[n].available[i]).node == n by {
            assert(self.pools.contains_key(n));
        }
        assert forall|h: u64, n: Seq<char>| after.holds(h, n) implies (
            #[trigger] after.dedicated[h][n]).node == n by {
            assert(self.holds(h, n));
        }
    }

    /// Releasing a handle lengthens the free list of a node by one if the
    /// handle held a healthy connection to the node and the node still has a
    /// pool, and leaves it as it is otherwise: an unhealthy connection is never
    /// parked.
    pub proof fn lemma_release_idle(self, handle: u64, node: Seq<char>)
        requires
            self.is_live(handle),
        ensures
            self.release(handle).idle(node) == self.idle(node) + if self.holds_healthy(
                handle,
                node,
            ) && self.pools.contains_key(node) {
                1nat
            } else {
                0nat
            },
            self.holds_healthy(handle, node) && self.pools.contains_key(node) ==> self.release(
                handle,
            ).node_pool(node).available.last() == self.dedicated[handle][node],
    {
    }

    /// Releasing a handle lengthens the free lists, all together, by the
    /// number of healthy connections the handle held to nodes that still have
    /// a pool: by no more than the number of its healthy connections, and so
    /// by less than the number of its connections by at least the number of
    /// the unhealthy ones.
    pub proof fn lemma_release_idle_total(self, handle: u64)
        requires
            self.is_live(handle),
            self.finite(),
        ensures
            self.healthy_nodes(handle).finite(),
            self.unhealthy_nodes(handle).finite(),
            self.healthy_nodes(handle).len() + self.unhealthy_nodes(handle).len()
                == self.dedicated[handle].dom().len(),
            self.release(handle).idle_total() == self.idle_total() + self.pools.dom().intersect(
                self.healthy_nodes(handle),
            ).len(),
            self.release(handle).idle_total() <= self.idle_total() + self.healthy_nodes(
                handle,
            ).len(),
            self.release(handle).idle_total() + self.unhealthy_nodes(handle).len()
                <= self.idle_total() + self.dedicated[handle].dom().len(),
    {
        let after = self.release(handle);
        let held = self.dedicated[handle].dom();
        let healthy = self.healthy_nodes(handle);
        let unhealthy = self.unhealthy_nodes(handle);
        let nodes = self.pools.dom();
        assert(healthy.subset_of(held));
        assert(unhealthy.subset_of(held));
        lemma_len_subset(healthy, held);
        lemma_len_subset(unhealthy, held);
        assert(healthy.disjoint(unhealthy));
        lemma_set_disjoint_lens(healthy, unhealthy);
        assert(healthy + unhealthy =~= held);
        let parked = |node: Seq<char>|
            if healthy.contains(node) {
                1nat
            } else {
                0nat
            };
        assert(after.pools.dom() =~= nodes);
        lemma_sum_split(nodes, after.idle_by_node(), self.idle_by_node(), parked);
        lemma_sum_counts(nodes, parked, healthy);
        assert(healthy.intersect(nodes) =~= nodes.intersect(healthy));
        lemma_len_intersect(healthy, nodes);
    }

    /// A handle becomes live when it is issued and stays live until it is
    /// released; no other step touches the set of live handles.
    pub proof fn lemma_live_handles(
        self,
        handle: u64,
        other: u64,
        node: Seq<char>,
        client: F,
        conn: C,
        active: Set<Seq<char>>,
    )
        ensures
            self.acquire(other).is_live(handle) <==> self.is_live(handle) || handle == other,
            self.release(other).is_live(handle) <==> self.is_live(handle) && handle != other,
            self.register(node, client).is_live(handle) <==> self.is_live(handle),
            self.get(other, node).is_live(handle) <==> self.is_live(handle),
            self.install(other, node, conn).is_live(handle) <==> self.is_live(handle),
            self.mark(other, node).is_live(handle) <==> self.is_live(handle),
            self.fail_over(node).is_live(handle) <==> self.is_live(handle),
            self.change_topology(active).is_live(handle) <==> self.is_live(handle),
    {
    }

    /// An unhealthy connection that a handle holds stays unhealthy for as long
    /// as the handle holds it: only a request of that handle for that node, or
    /// the installation of a fresh connection, puts another one in its place.
    pub proof fn lemma_unhealthy_until_replaced(
        self,
        handle: u64,
        node: Seq<char>,
        other: u64,
        other_node: Seq<char>,
        client: F,
        conn: C,
        active: Set<Seq<char>>,
    )
        requires
            self.holds(handle, node),
            !self.holds_healthy(handle, node),
        ensures
            !self.register(other_node, client).holds_healthy(handle, node),
            !self.acquire(other).holds_healthy(handle, node),
            !self.mark(other, other_node).holds_healthy(handle, node),
            !self.release(other).holds_healthy(handle, node),
            !self.fail_over(other_node).holds_healthy(handle, node),
            !self.change_topology(active).holds_healthy(handle, node),
            other != handle || other_node != node ==> !self.get(other, other_node).holds_healthy(
                handle,
                node,
            ) && !self.install(other, other_node, conn).holds_healthy(handle, node),
    {
    }

    /// A request is answered from what the handle holds whenever that is
    /// healthy, and the state stays as it is; marking the connection unhealthy
    /// makes the next request draw from the node's pool, provided the node is
    /// registered.
    pub proof fn lemma_mark_forces_replacement(self, handle: u64, node: Seq<char>)
        requires
            self.holds(handle, node),
        ensures
            self.holds_healthy(handle, node) ==> self.get(handle, node) == self,
            !self.mark(handle, node).holds_healthy(handle, node),
            self.clients.contains_key(node) ==> self.mark(handle, node).draws(handle, node),
    {
    }

    /// A request that is not answered with a connection leaves the state as
    /// it is: one of a handle that is not live, one for a node that is not
    /// registered, and one for which a connection has to be opened first. So
    /// does the installation of a connection for such a handle or node.
    pub proof fn lemma_refused_request_changes_nothing(
        self,
        handle: u64,
        node: Seq<char>,
        conn: C,
    )
        ensures
            !self.is_live(handle) ==> self.get(handle, node) == self,
            !self.holds_healthy(handle, node) && !self.clients.contains_key(node) ==> self.get(
                handle,
                node,
            ) == self,
            self.must_open(handle, node) ==> self.get(handle, node) == self,
            !self.installs(handle, node) ==> self.install(handle, node, conn) == self,
    {
    }

    /// A request of a handle takes connections from the free lists and never
    /// adds one: no free list is longer after it than before, the state stays
    /// finite, and the handle stays live.
    pub proof fn lemma_request_idle(self, handle: u64, request: Request<C>)
        requires
            self.finite(),
        ensures
            self.request(handle, request).finite(),
            self.request(handle, request).is_live(handle) == self.is_live(handle),
            forall|node: Seq<char>| #[trigger]
                self.request(handle, request).idle(node) <= self.idle(node),
            self.request(handle, request).idle_total() <= self.idle_total(),
    {
        let after = self.request(handle, request);
        let nodes = self.pools.dom();
        assert forall|h: u64| #[trigger] after.dedicated.contains_key(h) implies after.dedicated[h]
            .dom().finite() by {
            assert(self.dedicated.contains_key(h));
            assert(self.dedicated[h].dom().finite());
        }
        match request {
            Request::Get(node) => {
                if self.reuses(handle, node) {
                    crate::node_pool::lemma_last_healthy(self.node_pool(node).available);
                    assert(nodes.contains(node));
                    assert(after.pools.dom() =~= nodes);
                    lemma_sum_le(nodes, after.idle_by_node(), self.idle_by_node());
                }
            },
            Request::Install(node, conn) => {
                if self.installs(handle, node) {
                    if nodes.contains(node) {
                        assert(after.pools.dom() =~= nodes);
                        lemma_sum_le(nodes, after.idle_by_node(), self.idle_by_node());
                    } else {
                        assert(after.pools.dom() =~= nodes.insert(node));
                        lemma_sum_insert(nodes, after.idle_by_node(), node);
                        lemma_sum_le(nodes, after.idle_by_node(), self.idle_by_node());
                    }
                }
            },
            Request::Mark(node) => {},
        }
    }

    /// However many requests a handle makes, the free lists are no longer
    /// after them than before.
    pub proof fn lemma_requests_idle(self, handle: u64, requests: Seq<Request<C>>)
        requires
            self.finite(),
        ensures
            self.requests(handle, requests).finite(),
            self.requests(handle, requests).is_live(handle) == self.is_live(handle),
            forall|node: Seq<char>| #[trigger]
                self.requests(handle, requests).idle(node) <= self.idle(node),
            self.requests(handle, requests).idle_total() <= self.idle_total(),
        decreases requests.len(),
    {
        if requests.len() > 0 {
            let earlier = self.requests(handle, requests.drop_last());
            self.lemma_requests_idle(handle, requests.drop_last());
            earlier.lemma_request_idle(handle, requests.last());
            assert forall|node: Seq<char>| #[trigger]
                self.requests(handle, requests).idle(node) <= self.idle(node) by {
                assert(earlier.request(handle, requests.last()).idle(node) <= earlier.idle(node));
                assert(earlier.idle(node) <= self.idle(node));
            }
        }
    }

    /// From the moment a handle is live to its release: whatever the handle
    /// asked for in between, the free lists hold after the release no more
    /// than they held at the start plus the healthy connections the handle
    /// gave back, which is less than all it held by the unhealthy ones.
    pub proof fn lemma_session_idle_total(self, handle: u64, requests: Seq<Request<C>>)
        requires
            self.finite(),
            self.is_live(handle),
        ensures
            ({
                let end = self.requests(handle, requests);
                &&& end.is_live(handle)
                &&& end.healthy_nodes(handle).finite()
                &&& end.unhealthy_nodes(handle).finite()
                &&& end.release(handle).idle_total() <= self.idle_total() + end.healthy_nodes(
                    handle,
                ).len()
                &&& end.release(handle).idle_total() + end.unhealthy_nodes(handle).len()
                    <= self.idle_total() + end.dedicated[handle].dom().len()
            }),
    {
        let end = self.requests(handle, requests);
        self.lemma_requests_idle(handle, requests);
        end.lemma_release_idle_total(handle);
    }

    /// A change of topology leaves what belongs to an active node as it is,
    /// and leaves nothing of any other node. Where no registration, pool or
    /// held connection belongs to a node outside `active`, the state stays
    /// as it is.
    pub proof fn lemma_topology_keeps_active(
        self,
        active: Set<Seq<char>>,
        handle: u64,
        node: Seq<char>,
    )
        ensures
            active.contains(node) ==> {
                let after = self.change_topology(active);
                &&& after.clients.contains_key(node) == self.clients.contains_key(node)
                &&& after.clients.contains_key(node) ==> after.clients[node] == self.clients[node]
                &&& after.node_pool(node) == self.node_pool(node)
                &&& after.holds(handle, node) == self.holds(handle, node)
                &&& after.holds(handle, node) ==> after.dedicated[handle][node]
                    == self.dedicated[handle][node]
            },
            !active.contains(node) ==> {
                let after = self.change_topology(active);
                &&& !after.clients.contains_key(node)
                &&& !after.pools.contains_key(node)
                &&& !after.holds(handle, node)
            },
            self.clients.dom().subset_of(active) && self.pools.dom().subset_of(active) && (forall|
                h: u64,
                n: Seq<char>,
            | #[trigger] self.holds(h, n) ==> active.contains(n)) ==> self.change_topology(active)
                == self,
    {
        let after = self.change_topology(active);
        if self.clients.dom().subset_of(active) && self.pools.dom().subset_of(active) && (forall|
            h: u64,
            n: Seq<char>,
        | #[trigger] self.holds(h, n) ==> active.contains(n)) {
            assert(after.clients =~= self.clients);
            assert(after.pools =~= self.pools);
            assert forall|h: u64|
                self.dedicated.contains_key(h) implies #[trigger] after.dedicated[h]
                == self.dedicated[h] by {
                assert forall|n: Seq<char>|
                    self.dedicated[h].contains_key(n) implies active.contains(n) by {
                    assert(self.holds(h, n));
                }
                assert(after.dedicated[h] =~= self.dedicated[h]);
            }
            assert(after.dedicated =~= self.dedicated);
        }
    }
}

} // verus!
