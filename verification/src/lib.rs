//! Dedicated connections for a clustered key-value database client.
//!
//! A stateful command sequence (a watch, a transaction, a blocking read, a
//! subscription) needs connections that nothing else uses. The pool issues
//! handles; a handle holds one connection to each node it has used, reuses
//! it from command to command, and gives it back when it is released.
//!
//! * [`connection_pool`] is the pool, [`pool_view`] its state as a
//!   mathematical value with the laws that hold of it, [`node_pool`] the free
//!   list of one node, [`managed`] a connection with its node and health, and
//!   [`handle`] the handles and their counter.
//! * [`failover`] decides what follows a failed command on a dedicated
//!   connection.
//! * [`cluster_scan_container`] keeps scan cursors under random tokens, and
//!   [`scripts_container`] keeps script bodies under their SHA-1 digest,
//!   counting references.
//! * [`channel_lock`] holds the guards of the reader/writer lock that the
//!   shared state lives behind.
//! * [`vec_map`] and [`string_map`] are the maps the above are built on, the
//!   first for the few nodes of a cluster, the second for what grows with
//!   use; [`counting`] holds the sums, and [`error`] is what they report.
//!
//! The pool opens no connection itself and waits for nothing: where a
//! connection has to be opened it says so, and takes the outcome in a second
//! call. Whoever drives it holds the lock around both.

pub mod channel_lock;
pub mod cluster_scan_container;
pub mod connection_pool;
pub mod counting;
pub mod error;
pub mod failover;
pub mod handle;
pub mod managed;
pub mod node_pool;
pub mod pool_view;
pub mod scripts_container;
pub mod string_map;
mod shared;
pub mod vec_map;
