//! A connection together with the node it was opened against and its health.

use vstd::prelude::*;

verus! {

/// What the pool knows of one managed connection.
pub struct ManagedView<C> {
    /// The underlying connection.
    pub conn: C,
    /// The node the connection was opened against.
    pub node: Seq<char>,
    /// Whether the connection may still be handed out.
    pub healthy: bool,
}

impl<C> ManagedView<C> {
    /// A connection as it is right after it was opened: healthy.
    pub open spec fn fresh(conn: C, node: Seq<char>) -> Self {
        ManagedView { conn, node, healthy: true }
    }

    /// The same connection once it has been marked unhealthy.
    pub open spec fn marked(self) -> Self {
        ManagedView { healthy: false, ..self }
    }
}

/// A connection owned by the pool, either parked in a free list or held by a
/// handle.
pub struct ManagedConnection<C> {
    conn: C,
    node_id: String,
    is_healthy: bool,
}

impl<C> View for ManagedConnection<C> {
    type V = ManagedView<C>;

    closed spec fn view(&self) -> ManagedView<C> {
        ManagedView { conn: self.conn, node: self.node_id@, healthy: self.is_healthy }
    }
}

impl<C> ManagedConnection<C> {
    /// Wraps a connection that was just opened against `node_id`.
    pub fn new(conn: C, node_id: String) -> (managed: Self)
        ensures
            managed@ == ManagedView::fresh(conn, node_id@),
    {
        ManagedConnection { conn, node_id, is_healthy: true }
    }

    /// Marks the connection unhealthy. Nothing makes it healthy again.
    pub fn mark_unhealthy(&mut self)
        ensures
            final(self)@ == old(self)@.marked(),
    {
        self.is_healthy = false;
    }

    /// Whether the connection is still healthy.
    pub fn is_healthy(&self) -> (healthy: bool)
        ensures
            healthy == self@.healthy,
    {
        self.is_healthy
    }

    /// The underlying connection.
    pub fn connection(&self) -> (conn: &C)
        ensures
            *conn == self@.conn,
    {
        &self.conn
    }

    /// The node the connection was opened against.
    pub fn node_id(&self) -> (node: &String)
        ensures
            node@ == self@.node,
    {
        &self.node_id
    }
}

/// A connection that has been marked unhealthy stays unhealthy however often
/// it is marked again, and keeps its connection and its node.
pub proof fn lemma_unhealthy_is_final<C>(managed: ManagedView<C>)
    ensures
        !managed.marked().healthy,
        managed.marked().marked() == managed.marked(),
        managed.marked().conn == managed.conn,
        managed.marked().node == managed.node,
{
}

} // verus!
