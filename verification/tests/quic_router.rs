use kadmium::quic::{ConnState, QuicRouter, StreamState};
use kadmium::{Id, PeerAddr};

// Produces a local address from the supplied port.
fn localhost_with_port(port: u16) -> PeerAddr {
    PeerAddr::new_v4([127, 0, 0, 1], port)
}

#[test]
fn quic_router_insert() {
    let mut router = QuicRouter::new(Id::from_u16(0), 1, 20);
    // ... 0001 -> bucket i = 0
    assert!(router.insert(Id::from_u16(1), localhost_with_port(1)));
    // ... 0010 -> bucket i = 1
    assert!(router.insert(Id::from_u16(2), localhost_with_port(2)));
    // ... 0011 -> bucket i = 1
    assert!(router.insert(Id::from_u16(3), localhost_with_port(3)));
}

#[test]
fn quic_router_insert_defaults() {
    let mut router = QuicRouter::new(Id::from_u16(0), 1, 20);

    let id = Id::from_u16(1);
    let addr = localhost_with_port(1);

    assert!(router.insert(id, addr));

    let meta = router.peer_meta(&id).unwrap();
    assert_eq!(meta.addr, addr);
    assert_eq!(meta.conn_id, None);
    assert_eq!(meta.conn_state, ConnState::Disconnected);
    assert_eq!(meta.stream_state, StreamState::Closed);
    assert_eq!(meta.last_seen, None);
}

#[test]
fn quic_router_insert_self() {
    let mut router = QuicRouter::new(Id::from_u16(0), 1, 20);
    // Attempt to insert our local id.
    assert!(!router.insert(router.local_id(), localhost_with_port(0)));
}

#[test]
fn quic_router_insert_duplicate() {
    let mut router = QuicRouter::new(Id::from_u16(0), 1, 20);
    // The double insert will still return true.
    assert!(router.insert(Id::from_u16(1), localhost_with_port(1)));
    assert!(router.insert(Id::from_u16(1), localhost_with_port(1)));
}

#[test]
fn insert_duplicate_updates_addr() {
    let mut router = QuicRouter::new(Id::from_u16(0), 1, 20);

    let id = Id::from_u16(1);
    let addr = localhost_with_port(1);
    assert!(router.insert(id, addr));
    assert_eq!(router.peer_meta(&id).unwrap().addr, addr);

    // Inserting the same identifier with a different address should result in the new address
    // getting stored (so long as the peer is disconnected).
    let id = Id::from_u16(1);
    let addr = localhost_with_port(2);
    assert!(router.insert(id, addr));
    assert_eq!(router.peer_meta(&id).unwrap().addr, addr);
}

#[test]
fn quic_insert_keeps_address_of_connected_peer() {
    let mut router = QuicRouter::new(Id::from_u16(0), 1, 20);
    let id = Id::from_u16(1);
    assert!(router.insert(id, localhost_with_port(1)));
    assert!(router.set_connected(id, 7, StreamState::Bi));
    assert!(router.insert(id, localhost_with_port(2)));
    let meta = router.peer_meta(&id).unwrap();
    assert_eq!(meta.addr, localhost_with_port(1));
    assert_eq!(meta.conn_id, Some(7));
    assert_eq!(meta.conn_state, ConnState::Connected);
    // The stream state is not recorded.
    assert_eq!(meta.stream_state, StreamState::Closed);
    assert!(meta.last_seen.is_some());
}

#[test]
fn quic_set_connected_full_bucket() {
    let mut router = QuicRouter::new(Id::from_u16(0), 1, 20);
    router.insert(Id::from_u16(2), localhost_with_port(2));
    router.insert(Id::from_u16(3), localhost_with_port(3));
    assert_eq!(router.can_connect(Id::from_u16(2)), (true, Some(1)));
    assert!(router.set_connected(Id::from_u16(2), 1, StreamState::Uni));
    let refused = router.peer_meta(&Id::from_u16(3)).unwrap();
    assert!(!router.set_connected(Id::from_u16(3), 2, StreamState::Uni));
    // A refused connection leaves the peer's meta data as it was.
    assert_eq!(router.peer_meta(&Id::from_u16(3)).unwrap(), refused);
    assert_ne!(router.peer_meta(&Id::from_u16(2)).unwrap(), refused);
    assert_eq!(router.can_connect(Id::from_u16(0)), (false, None));
}
