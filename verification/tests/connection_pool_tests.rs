use glide_core::connection_pool::ConnectionPool;
use glide_core::connection_pool::Lookup;
use glide_core::error::GlideError;
use glide_core::handle::ConnectionHandle;
use glide_core::handle::HandleCounter;
use std::cell::Cell;
use std::rc::Rc;

/// A connection that remembers which call of which client opened it.
#[derive(Clone, Debug, PartialEq)]
struct Conn {
    url: String,
    serial: usize,
}

impl Conn {
    fn is_connected(&self) -> bool {
        true
    }
}

/// A client that opens connections without a server, and counts them.
#[derive(Clone, Debug)]
struct Client {
    url: String,
    opened: Rc<Cell<usize>>,
    reachable: bool,
}

impl Client {
    fn open(url: &str) -> Result<Client, String> {
        if url.starts_with("redis://") {
            Ok(Client { url: url.to_string(), opened: Rc::new(Cell::new(0)), reachable: true })
        } else {
            Err(format!("not a redis url: {}", url))
        }
    }

    fn unreachable(url: &str) -> Client {
        Client { url: url.to_string(), opened: Rc::new(Cell::new(0)), reachable: false }
    }

    fn connect(&self) -> Option<Conn> {
        if !self.reachable {
            return None;
        }
        let serial = self.opened.get();
        self.opened.set(serial + 1);
        Some(Conn { url: self.url.clone(), serial })
    }
}

type Pool = ConnectionPool<Conn, Client>;

/// Asks for the handle's connection and opens one where the pool says so.
fn get_connection(
    pool: &mut Pool,
    handle: ConnectionHandle,
    node: &str,
) -> Result<Conn, GlideError> {
    assert!(pool.in_use(node) < usize::MAX);
    match pool.get_connection(handle, node)? {
        Lookup::Connected(conn) => Ok(conn),
        Lookup::MustOpen => {
            let opened = match pool.client(node) {
                Some(client) => client.connect(),
                None => None,
            };
            pool.complete_connection(handle, node, opened)
        }
    }
}

#[test]
fn test_failover_handling() {
    let mut counter = HandleCounter::new();
    let mut pool = Pool::new();

    let primary_client = Client::open("redis://primary:6379").unwrap();
    let replica_client = Client::open("redis://replica:6379").unwrap();

    pool.register_node("primary".to_string(), primary_client);
    pool.register_node("replica".to_string(), replica_client);

    let handle = pool.acquire_dedicated(&mut counter);
    let conn1 = get_connection(&mut pool, handle, "primary").unwrap();

    assert!(conn1.is_connected());

    pool.handle_failover("primary", "replica");

    let conn2 = get_connection(&mut pool, handle, "replica").unwrap();
    assert!(conn2.is_connected());

    assert_eq!(conn1.url, "redis://primary:6379");
    assert_eq!(conn2.url, "redis://replica:6379");
    assert_eq!(pool.health(handle, "primary"), Some(false));
    assert_eq!(pool.health(handle, "replica"), Some(true));

    pool.release_dedicated(handle);
    assert!(!pool.is_live(handle));
}

#[test]
fn test_connection_error_recovery() {
    let mut counter = HandleCounter::new();
    let mut pool = Pool::new();

    let client = Client::open("redis://localhost:6379").unwrap();
    pool.register_node("node1".to_string(), client);

    let handle = pool.acquire_dedicated(&mut counter);

    let conn1 = get_connection(&mut pool, handle, "node1").unwrap();

    pool.mark_connection_unhealthy(handle, "node1");

    let conn2 = get_connection(&mut pool, handle, "node1").unwrap();
    assert!(conn2.is_connected());
    assert_ne!(conn1, conn2);
    assert_eq!(conn1.serial, 0);
    assert_eq!(conn2.serial, 1);

    pool.release_dedicated(handle);
}

#[test]
fn test_topology_change() {
    let mut counter = HandleCounter::new();
    let mut pool = Pool::new();

    for i in 1..=3 {
        let client = Client::open(&format!("redis://node{}:6379", i)).unwrap();
        pool.register_node(format!("node{}", i), client);
    }

    let handle = pool.acquire_dedicated(&mut counter);

    get_connection(&mut pool, handle, "node1").unwrap();
    get_connection(&mut pool, handle, "node2").unwrap();
    get_connection(&mut pool, handle, "node3").unwrap();

    pool.handle_topology_change(&["node1".to_string(), "node2".to_string()]);

    assert!(get_connection(&mut pool, handle, "node1").is_ok());
    assert!(get_connection(&mut pool, handle, "node2").is_ok());

    assert!(get_connection(&mut pool, handle, "node3").is_err());
    assert_eq!(get_connection(&mut pool, handle, "node3"), Err(GlideError::UnknownNode));
    assert_eq!(pool.health(handle, "node3"), None);
    assert_eq!(pool.health(handle, "node1"), Some(true));

    pool.release_dedicated(handle);
}

#[test]
fn test_multiple_handles_during_failover() {
    let mut counter = HandleCounter::new();
    let mut pool = Pool::new();

    let primary_client = Client::open("redis://primary:6379").unwrap();
    let replica_client = Client::open("redis://replica:6379").unwrap();
    let primary_opened = primary_client.opened.clone();

    pool.register_node("primary".to_string(), primary_client);
    pool.register_node("replica".to_string(), replica_client);

    let handle1 = pool.acquire_dedicated(&mut counter);
    let handle2 = pool.acquire_dedicated(&mut counter);
    let handle3 = pool.acquire_dedicated(&mut counter);

    get_connection(&mut pool, handle1, "primary").unwrap();
    get_connection(&mut pool, handle2, "primary").unwrap();
    get_connection(&mut pool, handle3, "primary").unwrap();

    pool.handle_failover("primary", "replica");

    let replica1 = get_connection(&mut pool, handle1, "replica");
    let replica2 = get_connection(&mut pool, handle2, "replica");
    let replica3 = get_connection(&mut pool, handle3, "replica");
    assert!(replica1.is_ok());
    assert!(replica2.is_ok());
    assert!(replica3.is_ok());
    let replica1 = replica1.unwrap();
    let replica2 = replica2.unwrap();
    let replica3 = replica3.unwrap();
    assert_ne!(replica1, replica2);
    assert_ne!(replica2, replica3);
    assert_ne!(replica1, replica3);

    assert_eq!(primary_opened.get(), 3);
    let again = get_connection(&mut pool, handle1, "primary").unwrap();
    assert_eq!(primary_opened.get(), 4);
    assert_eq!(again.serial, 3);

    pool.release_dedicated(handle1);
    pool.release_dedicated(handle2);
    pool.release_dedicated(handle3);
}

#[test]
fn release_of_unhealthy_connection_parks_nothing() {
    let mut counter = HandleCounter::new();
    let mut pool = Pool::new();
    pool.register_node("node1".to_string(), Client::open("redis://node1:6379").unwrap());

    let handle = pool.acquire_dedicated(&mut counter);
    get_connection(&mut pool, handle, "node1").unwrap();
    assert_eq!(pool.in_use("node1"), 1);
    assert_eq!(pool.idle("node1"), 0);

    pool.mark_connection_unhealthy(handle, "node1");
    pool.release_dedicated(handle);

    assert_eq!(pool.idle("node1"), 0);
    assert_eq!(pool.in_use("node1"), 0);

    pool.release_dedicated(handle);
    assert_eq!(pool.idle("node1"), 0);
    assert_eq!(pool.in_use("node1"), 0);
}

#[test]
fn release_parks_healthy_connections_and_the_next_handle_reuses_them() {
    let mut counter = HandleCounter::new();
    let mut pool = Pool::new();
    let client = Client::open("redis://node1:6379").unwrap();
    let opened = client.opened.clone();
    pool.register_node("node1".to_string(), client);
    pool.register_node("node2".to_string(), Client::open("redis://node2:6379").unwrap());

    let first = pool.acquire_dedicated(&mut counter);
    let conn1 = get_connection(&mut pool, first, "node1").unwrap();
    get_connection(&mut pool, first, "node2").unwrap();
    pool.mark_connection_unhealthy(first, "node2");
    assert_eq!(pool.idle("node1") + pool.idle("node2"), 0);

    pool.release_dedicated(first);
    assert_eq!(pool.idle("node1"), 1);
    assert_eq!(pool.idle("node2"), 0);
    assert_eq!(pool.in_use("node1"), 0);

    let second = pool.acquire_dedicated(&mut counter);
    let reused = get_connection(&mut pool, second, "node1").unwrap();
    assert_eq!(reused, conn1);
    assert_eq!(opened.get(), 1);
    assert_eq!(pool.idle("node1"), 0);
    assert_eq!(pool.in_use("node1"), 1);
}

#[test]
fn free_list_is_last_in_first_out() {
    let mut counter = HandleCounter::new();
    let mut pool = Pool::new();
    pool.register_node("node1".to_string(), Client::open("redis://node1:6379").unwrap());

    let a = pool.acquire_dedicated(&mut counter);
    let b = pool.acquire_dedicated(&mut counter);
    let conn_a = get_connection(&mut pool, a, "node1").unwrap();
    let conn_b = get_connection(&mut pool, b, "node1").unwrap();
    pool.release_dedicated(a);
    pool.release_dedicated(b);
    assert_eq!(pool.idle("node1"), 2);

    let c = pool.acquire_dedicated(&mut counter);
    let d = pool.acquire_dedicated(&mut counter);
    assert_eq!(get_connection(&mut pool, c, "node1").unwrap(), conn_b);
    assert_eq!(get_connection(&mut pool, d, "node1").unwrap(), conn_a);
}

#[test]
fn a_held_healthy_connection_is_returned_again() {
    let mut counter = HandleCounter::new();
    let mut pool = Pool::new();
    let client = Client::open("redis://node1:6379").unwrap();
    let opened = client.opened.clone();
    pool.register_node("node1".to_string(), client);

    let handle = pool.acquire_dedicated(&mut counter);
    let first = get_connection(&mut pool, handle, "node1").unwrap();
    let second = get_connection(&mut pool, handle, "node1").unwrap();
    assert_eq!(first, second);
    assert_eq!(opened.get(), 1);
    assert_eq!(pool.in_use("node1"), 1);
}

#[test]
fn an_unknown_handle_is_refused() {
    let mut counter = HandleCounter::new();
    let mut other_counter = HandleCounter::new();
    let mut pool = Pool::new();
    pool.register_node("node1".to_string(), Client::open("redis://node1:6379").unwrap());

    let never_acquired = ConnectionHandle::new(&mut other_counter);
    assert_eq!(get_connection(&mut pool, never_acquired, "node1"), Err(GlideError::InvalidHandle));

    let handle = pool.acquire_dedicated(&mut counter);
    assert!(get_connection(&mut pool, handle, "node1").is_ok());
    pool.release_dedicated(handle);
    assert_eq!(get_connection(&mut pool, handle, "node1"), Err(GlideError::InvalidHandle));
    assert_eq!(
        pool.complete_connection(handle, "node1", Some(Conn { url: String::new(), serial: 9 })),
        Err(GlideError::InvalidHandle)
    );
}

#[test]
fn an_unregistered_node_is_refused() {
    let mut counter = HandleCounter::new();
    let mut pool = Pool::new();
    let handle = pool.acquire_dedicated(&mut counter);
    assert_eq!(get_connection(&mut pool, handle, "nowhere"), Err(GlideError::UnknownNode));
    assert_eq!(pool.in_use("nowhere"), 0);
}

#[test]
fn a_failed_open_is_reported_and_installs_nothing() {
    let mut counter = HandleCounter::new();
    let mut pool = Pool::new();
    pool.register_node("node1".to_string(), Client::unreachable("redis://node1:6379"));
    let handle = pool.acquire_dedicated(&mut counter);

    assert_eq!(get_connection(&mut pool, handle, "node1"), Err(GlideError::ConnectionOpenFailed));
    assert_eq!(pool.health(handle, "node1"), None);
    assert_eq!(pool.in_use("node1"), 0);
    assert_eq!(pool.idle("node1"), 0);
    assert!(pool.is_live(handle));

    pool.register_node("node1".to_string(), Client::open("redis://node1:6379").unwrap());
    assert!(get_connection(&mut pool, handle, "node1").is_ok());
    assert_eq!(pool.health(handle, "node1"), Some(true));
}

#[test]
fn the_last_registration_of_a_node_counts() {
    let mut counter = HandleCounter::new();
    let mut pool = Pool::new();
    pool.register_node("node1".to_string(), Client::open("redis://old:6379").unwrap());
    pool.register_node("node1".to_string(), Client::open("redis://new:6379").unwrap());
    let handle = pool.acquire_dedicated(&mut counter);
    let conn = get_connection(&mut pool, handle, "node1").unwrap();
    assert_eq!(conn.url, "redis://new:6379");
    assert_eq!(pool.client("node1").unwrap().url, "redis://new:6379");
    assert!(pool.client("node2").is_none());
}

#[test]
fn marking_an_absent_connection_changes_nothing() {
    let mut counter = HandleCounter::new();
    let mut pool = Pool::new();
    pool.register_node("node1".to_string(), Client::open("redis://node1:6379").unwrap());
    let handle = pool.acquire_dedicated(&mut counter);
    pool.mark_connection_unhealthy(handle, "node1");
    assert_eq!(pool.health(handle, "node1"), None);
    pool.release_dedicated(handle);
    pool.mark_connection_unhealthy(handle, "node1");
    assert!(!pool.is_live(handle));
}

#[test]
fn failover_drops_the_pool_of_the_failed_node_only() {
    let mut counter = HandleCounter::new();
    let mut pool = Pool::new();
    pool.register_node("primary".to_string(), Client::open("redis://primary:6379").unwrap());
    pool.register_node("replica".to_string(), Client::open("redis://replica:6379").unwrap());

    let handle = pool.acquire_dedicated(&mut counter);
    get_connection(&mut pool, handle, "primary").unwrap();
    get_connection(&mut pool, handle, "replica").unwrap();
    pool.release_dedicated(handle);
    assert_eq!(pool.idle("primary"), 1);
    assert_eq!(pool.idle("replica"), 1);

    let untouched = pool.acquire_dedicated(&mut counter);
    pool.handle_failover("primary", "replica");
    assert_eq!(pool.idle("primary"), 0);
    assert_eq!(pool.idle("replica"), 1);
    assert_eq!(pool.health(untouched, "primary"), None);
    assert!(pool.client("primary").is_some());
}

#[test]
fn a_connection_released_after_its_node_left_is_dropped() {
    let mut counter = HandleCounter::new();
    let mut pool = Pool::new();
    pool.register_node("node1".to_string(), Client::open("redis://node1:6379").unwrap());
    pool.register_node("node2".to_string(), Client::open("redis://node2:6379").unwrap());
    let handle = pool.acquire_dedicated(&mut counter);
    get_connection(&mut pool, handle, "node1").unwrap();
    get_connection(&mut pool, handle, "node2").unwrap();

    pool.handle_failover("node1", "node2");
    pool.release_dedicated(handle);
    assert_eq!(pool.idle("node1"), 0);
    assert_eq!(pool.idle("node2"), 1);

    pool.handle_topology_change(&["node1".to_string()]);
    assert_eq!(pool.idle("node2"), 0);
    assert!(pool.client("node2").is_none());
    assert!(pool.client("node1").is_some());
}

#[test]
fn handles_of_one_counter_are_distinct() {
    let mut counter = HandleCounter::new();
    let mut pool = Pool::new();
    let mut seen: Vec<ConnectionHandle> = Vec::new();
    for expected in 0..50u64 {
        let handle = pool.acquire_dedicated(&mut counter);
        assert_eq!(handle.id(), expected);
        assert!(!seen.contains(&handle));
        assert!(pool.is_live(handle));
        seen.push(handle);
    }
}

#[test]
fn a_default_pool_is_empty() {
    let mut counter = HandleCounter::new();
    let mut pool: Pool = Default::default();
    assert!(pool.client("node1").is_none());
    let handle = pool.acquire_dedicated(&mut counter);
    assert_eq!(get_connection(&mut pool, handle, "node1"), Err(GlideError::UnknownNode));
}

#[test]
fn an_unhealthy_connection_to_a_node_that_left_cannot_be_replaced() {
    let mut counter = HandleCounter::new();
    let mut pool = Pool::new();
    pool.register_node("node1".to_string(), Client::open("redis://node1:6379").unwrap());
    pool.register_node("node2".to_string(), Client::open("redis://node2:6379").unwrap());
    let handle = pool.acquire_dedicated(&mut counter);
    get_connection(&mut pool, handle, "node1").unwrap();
    pool.mark_connection_unhealthy(handle, "node1");

    pool.handle_topology_change(&["node2".to_string()]);

    assert_eq!(pool.health(handle, "node1"), None);
    assert_eq!(get_connection(&mut pool, handle, "node1"), Err(GlideError::UnknownNode));
    assert!(get_connection(&mut pool, handle, "node2").is_ok());
    assert!(pool.is_live(handle));
}

#[test]
fn a_handle_holds_one_connection_per_node() {
    let mut counter = HandleCounter::new();
    let mut pool = Pool::new();
    let client = Client::open("redis://node1:6379").unwrap();
    let opened = client.opened.clone();
    pool.register_node("node1".to_string(), client);
    let handle = pool.acquire_dedicated(&mut counter);

    for _ in 0..5 {
        get_connection(&mut pool, handle, "node1").unwrap();
        pool.mark_connection_unhealthy(handle, "node1");
    }
    assert_eq!(opened.get(), 5);
    assert_eq!(pool.health(handle, "node1"), Some(false));

    pool.release_dedicated(handle);
    assert_eq!(pool.idle("node1"), 0);
    assert_eq!(pool.in_use("node1"), 4);
}

#[test]
fn the_pool_says_when_a_connection_has_to_be_opened() {
    let mut counter = HandleCounter::new();
    let mut pool = Pool::new();
    pool.register_node("node1".to_string(), Client::open("redis://node1:6379").unwrap());
    let first = pool.acquire_dedicated(&mut counter);

    assert!(matches!(pool.get_connection(first, "node1"), Ok(Lookup::MustOpen)));
    assert_eq!(pool.in_use("node1"), 0);
    assert_eq!(pool.health(first, "node1"), None);

    let opened = Conn { url: "redis://node1:6379".to_string(), serial: 42 };
    assert_eq!(pool.complete_connection(first, "node1", Some(opened.clone())), Ok(opened.clone()));
    assert_eq!(pool.health(first, "node1"), Some(true));
    assert_eq!(pool.in_use("node1"), 1);

    match pool.get_connection(first, "node1") {
        Ok(Lookup::Connected(conn)) => assert_eq!(conn, opened),
        other => panic!("expected the held connection, got {:?}", other),
    }

    pool.release_dedicated(first);
    let second = pool.acquire_dedicated(&mut counter);
    match pool.get_connection(second, "node1") {
        Ok(Lookup::Connected(conn)) => assert_eq!(conn, opened),
        other => panic!("expected the parked connection, got {:?}", other),
    }
    assert_eq!(pool.in_use("node1"), 1);
    assert_eq!(
        pool.complete_connection(second, "node1", None),
        Err(GlideError::ConnectionOpenFailed)
    );
    assert_eq!(pool.health(second, "node1"), Some(true));
    assert_eq!(pool.in_use("node1"), 1);
}

#[test]
fn a_failed_open_leaves_an_unhealthy_connection_where_it_is() {
    let mut counter = HandleCounter::new();
    let mut pool = Pool::new();
    pool.register_node("node1".to_string(), Client::open("redis://node1:6379").unwrap());
    let handle = pool.acquire_dedicated(&mut counter);
    get_connection(&mut pool, handle, "node1").unwrap();
    pool.mark_connection_unhealthy(handle, "node1");
    assert_eq!(pool.in_use("node1"), 1);

    pool.register_node("node1".to_string(), Client::unreachable("redis://node1:6379"));
    assert_eq!(get_connection(&mut pool, handle, "node1"), Err(GlideError::ConnectionOpenFailed));
    assert_eq!(pool.health(handle, "node1"), Some(false));
    assert_eq!(pool.in_use("node1"), 1);
    assert_eq!(pool.idle("node1"), 0);
}

#[test]
fn a_connection_to_an_unregistered_node_is_not_installed() {
    let mut counter = HandleCounter::new();
    let mut pool = Pool::new();
    pool.register_node("node1".to_string(), Client::open("redis://node1:6379").unwrap());
    let handle = pool.acquire_dedicated(&mut counter);
    let stray = Conn { url: "redis://node2:6379".to_string(), serial: 0 };

    assert_eq!(
        pool.complete_connection(handle, "node2", Some(stray.clone())),
        Err(GlideError::UnknownNode)
    );
    assert_eq!(pool.health(handle, "node2"), None);
    assert_eq!(pool.in_use("node2"), 0);

    pool.handle_topology_change(&[]);
    assert_eq!(
        pool.complete_connection(handle, "node1", Some(stray)),
        Err(GlideError::UnknownNode)
    );
    assert_eq!(pool.health(handle, "node1"), None);
}

#[test]
fn a_session_leaves_no_more_idle_connections_than_it_gave_back() {
    let mut counter = HandleCounter::new();
    let mut pool = Pool::new();
    for name in ["node1", "node2", "node3"] {
        let client = Client::open(&format!("redis://{}:6379", name)).unwrap();
        pool.register_node(name.to_string(), client);
    }
    let earlier = pool.acquire_dedicated(&mut counter);
    get_connection(&mut pool, earlier, "node1").unwrap();
    get_connection(&mut pool, earlier, "node2").unwrap();
    pool.release_dedicated(earlier);
    let idle = |pool: &Pool| pool.idle("node1") + pool.idle("node2") + pool.idle("node3");
    let at_start = idle(&pool);
    assert_eq!(at_start, 2);

    let handle = pool.acquire_dedicated(&mut counter);
    assert_eq!(idle(&pool), at_start);
    get_connection(&mut pool, handle, "node1").unwrap();
    assert!(idle(&pool) <= at_start);
    get_connection(&mut pool, handle, "node2").unwrap();
    get_connection(&mut pool, handle, "node3").unwrap();
    pool.mark_connection_unhealthy(handle, "node2");
    get_connection(&mut pool, handle, "node2").unwrap();
    pool.mark_connection_unhealthy(handle, "node3");
    assert!(idle(&pool) <= at_start);
    assert_eq!(idle(&pool), 0);

    let healthy = 2;
    let unhealthy = 1;
    pool.release_dedicated(handle);
    assert!(idle(&pool) <= at_start + healthy);
    assert_eq!(idle(&pool), healthy);
    assert!(idle(&pool) + unhealthy <= at_start + 3);
}
