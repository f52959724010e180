use bytes::Bytes;
use kadmium::message::{Chunk, FindKNodes, Init, KNodes, Message, Ping, Response};
use kadmium::tcp::{ConnState, TcpMeta, TcpRouter};
use kadmium::{Id, PeerAddr, ProcessData};

// Produces a local address from the supplied port.
fn localhost_with_port(port: u16) -> PeerAddr {
    PeerAddr::new_v4([127, 0, 0, 1], port)
}

#[test]
fn default() {
    let router = TcpRouter::default();
    // We can't assert on randomness, but we can check the local id has been been filled with
    // non=zero bytes.
    assert_ne!(router.local_id(), Id::from_u16(0));

    // Check the default constants.
    assert_eq!(router.k(), 20);
    assert_eq!(router.max_bucket_size(), 20);

    // Check the collections are empty.
    assert_eq!(router.select_broadcast_peers(256).unwrap().len(), 0);
    assert!(router.connected_addrs().is_empty());
    assert!(router.disconnected_addrs().is_empty());
    assert!(router.peer_id(localhost_with_port(0)).is_none());
}

#[test]
fn peer_id_not_present() {
    let router = TcpRouter::new(Id::from_u16(0), 1, 20);
    assert!(router.peer_id(localhost_with_port(0)).is_none());
}

#[test]
fn peer_id_is_present() {
    let mut router = TcpRouter::new(Id::from_u16(0), 1, 20);

    let id = Id::from_u16(1);
    let addr = localhost_with_port(1);

    assert!(router.insert(id, addr));
    assert_eq!(router.peer_id(addr), Some(id));
}

#[test]
fn router_insert() {
    let mut router = TcpRouter::new(Id::from_u16(0), 1, 20);
    // ... 0001 -> bucket i = 0
    assert!(router.insert(Id::from_u16(1), localhost_with_port(1)));
    // ... 0010 -> bucket i = 1
    assert!(router.insert(Id::from_u16(2), localhost_with_port(2)));
    // ... 0011 -> bucket i = 1
    assert!(router.insert(Id::from_u16(3), localhost_with_port(3)));
}

#[test]
fn router_insert_defaults() {
    let mut router = TcpRouter::new(Id::from_u16(0), 1, 20);

    let id = Id::from_u16(1);
    let addr = localhost_with_port(1);

    assert!(router.insert(id, addr));

    let meta = router.peer_meta(&id).unwrap();
    assert_eq!(meta.listening_addr, addr);
    assert_eq!(meta.conn_addr, None);
    assert_eq!(meta.conn_state, ConnState::Disconnected);
    assert_eq!(meta.last_seen, None);
}

#[test]
fn router_insert_self() {
    let mut router = TcpRouter::new(Id::from_u16(0), 1, 20);
    // Attempt to insert our local id.
    assert!(!router.insert(router.local_id(), localhost_with_port(0)));
}

#[test]
fn router_insert_duplicate() {
    let mut router = TcpRouter::new(Id::from_u16(0), 1, 20);
    // The double insert will still return true.
    assert!(router.insert(Id::from_u16(1), localhost_with_port(1)));
    assert!(router.insert(Id::from_u16(1), localhost_with_port(1)));
}

#[test]
fn insert_duplicate_updates_listening_addr() {
    let mut router = TcpRouter::new(Id::from_u16(0), 1, 20);

    let id = Id::from_u16(1);
    let addr = localhost_with_port(1);
    assert!(router.insert(id, addr));
    assert_eq!(router.peer_meta(&id).unwrap().listening_addr, addr);

    // Inserting the same identifier with a different address should result in the new address
    // getting stored.
    let id = Id::from_u16(1);
    let addr = localhost_with_port(2);
    assert!(router.insert(id, addr));
    assert_eq!(router.peer_meta(&id).unwrap().listening_addr, addr);
}

#[test]
fn router_set_connected() {
    // Set the max bucket size to a low value so we can easily test when it's full.
    let mut router = TcpRouter::new(Id::from_u16(0), 1, 20);

    // ... 0001 -> bucket i = 0
    let addr = localhost_with_port(1);
    let id = Id::from_u16(1);
    router.insert(id, addr);
    assert!(router.set_connected(id, addr));

    // ... 0010 -> bucket i = 1
    let addr = localhost_with_port(2);
    let id = Id::from_u16(2);
    router.insert(id, addr);
    assert!(router.set_connected(id, addr));

    // ... 0011 -> bucket i = 1
    let addr = localhost_with_port(3);
    let id = Id::from_u16(3);
    router.insert(id, addr);
    assert!(!router.set_connected(id, addr));
}

#[test]
fn set_connected_self() {
    let mut router = TcpRouter::new(Id::from_u16(0), 1, 20);
    assert!(!router.set_connected(router.local_id(), localhost_with_port(0)));
}

#[test]
fn set_disconnected() {
    let mut router = TcpRouter::new(Id::from_u16(0), 1, 20);
    let id = Id::from_u16(1);
    let addr = localhost_with_port(1);
    assert!(router.insert(id, addr));
    assert!(router.set_connected(id, addr));
    assert!(router.set_disconnected(addr));
}

#[test]
fn set_disconnected_non_existant() {
    let mut router = TcpRouter::new(Id::from_u16(0), 1, 20);
    assert!(!router.set_disconnected(localhost_with_port(0)));
}

#[test]
fn router_find_k_closest() {
    let mut router = TcpRouter::new(Id::from_u16(0), 5, 20);

    // Generate 5 identifiers and addressses.
    let peers: Vec<(Id, PeerAddr)> = (1..=5)
        .map(|i| (Id::from_u16(i), localhost_with_port(i)))
        .collect();

    for peer in &peers {
        assert!(router.insert(peer.0, peer.1));
        assert!(router.set_connected(peer.0, peer.1));
    }

    let k = 3;
    let k_closest = router.find_k_closest(&router.local_id(), k);

    assert_eq!(k_closest.len(), 3);
    assert!(k_closest.contains(&peers[0]));
    assert!(k_closest.contains(&peers[1]));
    assert!(k_closest.contains(&peers[2]));
}

#[test]
fn find_k_closest_empty() {
    let router = TcpRouter::new(Id::from_u16(0), 5, 20);
    let k = 3;
    let k_closest = router.find_k_closest(&router.local_id(), k);
    assert_eq!(k_closest.len(), 0);
}

#[test]
fn router_select_broadcast_peers() {
    let mut router = TcpRouter::new(Id::from_u16(0), 5, 20);

    // Generate 5 identifiers and addressses.
    let peers: Vec<(Id, PeerAddr)> = (1..=5)
        .map(|i| (Id::from_u16(i), localhost_with_port(i)))
        .collect();

    for peer in peers {
        // Conn address is listening address (all peers received the connections).
        assert!(router.insert(peer.0, peer.1));
        assert!(router.set_connected(peer.0, peer.1));
    }

    // If the height is 0, we are the last node in the recursion, don't broadcast.
    let h = 0;
    assert!(router.select_broadcast_peers(h).is_none());

    let h = 1;
    // Should be present.
    let selected_peers = router.select_broadcast_peers(h).unwrap();
    assert_eq!(selected_peers.len(), 1);
    // Height for selected peer should be 0.
    assert_eq!(selected_peers[0].0, 0);
}

// Tests of this crate's own.

struct Text(String);

impl TryFrom<Bytes> for Text {
    type Error = ();

    fn try_from(bytes: Bytes) -> Result<Self, ()> {
        String::from_utf8(bytes.to_vec()).map(Text).map_err(|_| ())
    }
}

impl ProcessData<()> for Text {
    fn verify_data(&self, _state: ()) -> bool {
        self.0 == "Hello, world!"
    }
}

fn connected_router() -> TcpRouter {
    let mut router = TcpRouter::new(Id::from_u16(0), 5, 3);
    for i in 1..=5u16 {
        assert!(router.insert(Id::from_u16(i), localhost_with_port(i)));
        assert!(router.set_connected(Id::from_u16(i), localhost_with_port(100 + i)));
    }
    router
}

#[test]
fn set_connected_records_connection() {
    let mut router = TcpRouter::new(Id::from_u16(0), 5, 20);
    let id = Id::from_u16(4);
    router.insert(id, localhost_with_port(4));
    assert!(router.set_connected(id, localhost_with_port(40)));
    let meta = router.peer_meta(&id).unwrap();
    assert_eq!(meta.conn_addr, Some(localhost_with_port(40)));
    assert_eq!(meta.conn_state, ConnState::Connected);
    assert!(meta.last_seen.is_some());
    assert!(router.is_connected(localhost_with_port(40)));
    // The listening address leads to the connected peer too.
    assert!(router.is_connected(localhost_with_port(4)));
    assert_eq!(router.connected_addrs(), vec![localhost_with_port(40)]);
    assert!(router.disconnected_addrs().is_empty());
}

#[test]
fn set_connected_unknown_peer_has_room_but_records_nothing() {
    let mut router = TcpRouter::new(Id::from_u16(0), 5, 20);
    assert!(router.set_connected(Id::from_u16(9), localhost_with_port(9)));
    assert!(router.peer_meta(&Id::from_u16(9)).is_none());
    assert!(router.peer_id(localhost_with_port(9)).is_none());
}

#[test]
fn connect_disconnect_round_trip() {
    let mut router = TcpRouter::new(Id::from_u16(0), 5, 20);
    let id = Id::from_u16(2);
    router.insert(id, localhost_with_port(2));
    assert!(router.set_connected(id, localhost_with_port(20)));
    assert!(router.set_disconnected(localhost_with_port(20)));
    assert!(!router.is_connected(localhost_with_port(20)));
    assert!(router.peer_id(localhost_with_port(20)).is_none());
    let meta = router.peer_meta(&id).unwrap();
    assert_eq!(meta.conn_state, ConnState::Disconnected);
    assert_eq!(meta.conn_addr, None);
    assert_eq!(router.disconnected_addrs(), vec![localhost_with_port(2)]);
    // The bucket has room again.
    assert_eq!(router.can_connect(id), (true, Some(1)));
}

fn assert_same_meta(a: &TcpMeta, b: &TcpMeta) {
    assert_eq!(a.listening_addr, b.listening_addr);
    assert_eq!(a.conn_addr, b.conn_addr);
    assert_eq!(a.conn_state, b.conn_state);
    assert_eq!(a.last_seen, b.last_seen);
}

#[test]
fn disconnecting_a_listening_address_of_a_disconnected_peer_is_refused() {
    let mut router = TcpRouter::new(Id::from_u16(0), 5, 20);
    let id = Id::from_u16(2);
    router.insert(id, localhost_with_port(2));
    assert!(router.set_connected(id, localhost_with_port(20)));
    assert!(router.set_disconnected(localhost_with_port(20)));
    // The listening address still belongs to the peer, but it has no connection address
    // any more: nothing is disconnected and nothing changes.
    let before = *router.peer_meta(&id).unwrap();
    assert!(!router.set_disconnected(localhost_with_port(2)));
    assert_same_meta(router.peer_meta(&id).unwrap(), &before);
    assert_eq!(router.disconnected_addrs(), vec![localhost_with_port(2)]);
    assert!(router.connected_addrs().is_empty());
}

#[test]
fn disconnecting_a_known_peer_that_never_connected_is_refused() {
    let mut router = TcpRouter::new(Id::from_u16(0), 1, 20);
    router.insert(Id::from_u16(2), localhost_with_port(2));
    router.insert(Id::from_u16(3), localhost_with_port(3));
    assert!(router.set_connected(Id::from_u16(2), localhost_with_port(2)));
    let meta2 = *router.peer_meta(&Id::from_u16(2)).unwrap();
    let meta3 = *router.peer_meta(&Id::from_u16(3)).unwrap();
    assert!(!router.set_disconnected(localhost_with_port(3)));
    assert_same_meta(router.peer_meta(&Id::from_u16(2)).unwrap(), &meta2);
    assert_same_meta(router.peer_meta(&Id::from_u16(3)).unwrap(), &meta3);
    assert_eq!(router.connected_addrs(), vec![localhost_with_port(2)]);
    assert_eq!(router.peer_id(localhost_with_port(3)), Some(Id::from_u16(3)));
    // Bucket 1 is still full.
    assert_eq!(router.can_connect(Id::from_u16(3)), (false, None));
}

#[test]
fn insert_keeps_connection_state() {
    let mut router = TcpRouter::new(Id::from_u16(0), 5, 20);
    let id = Id::from_u16(3);
    router.insert(id, localhost_with_port(3));
    router.set_connected(id, localhost_with_port(30));
    assert!(router.insert(id, localhost_with_port(33)));
    let meta = router.peer_meta(&id).unwrap();
    assert_eq!(meta.listening_addr, localhost_with_port(33));
    assert_eq!(meta.conn_state, ConnState::Connected);
    assert_eq!(meta.conn_addr, Some(localhost_with_port(30)));
}

#[test]
fn can_connect_answers() {
    let mut router = TcpRouter::new(Id::from_u16(0), 1, 20);
    assert_eq!(router.can_connect(Id::from_u16(0)), (false, None));
    assert_eq!(router.can_connect(Id::from_u16(2)), (true, Some(1)));
    router.insert(Id::from_u16(2), localhost_with_port(2));
    assert!(router.set_connected(Id::from_u16(2), localhost_with_port(2)));
    assert_eq!(router.can_connect(Id::from_u16(3)), (false, None));
}

#[test]
fn find_k_closest_is_sorted_by_distance() {
    let router = connected_router();
    let target = Id::from_u16(4);
    let closest = router.find_k_closest(&target, 5);
    assert_eq!(closest.len(), 5);
    // Distances to 4: 4 -> None, 5 -> 0, 1, 2, 3 -> 2.
    assert_eq!(closest[0].0, Id::from_u16(4));
    assert_eq!(closest[1].0, Id::from_u16(5));
    for pair in closest.windows(2) {
        let a = pair[0].0.log2_distance(&target);
        let b = pair[1].0.log2_distance(&target);
        assert!(a <= b);
    }
    // Listening addresses are shared.
    assert_eq!(closest[0].1, localhost_with_port(4));
}

#[test]
fn select_search_peers_uses_connection_addresses() {
    let mut router = connected_router();
    router.insert(Id::from_u16(6), localhost_with_port(6));
    let peers = router.select_search_peers(6);
    assert_eq!(peers.len(), 6);
    assert_eq!(peers[0], (Id::from_u16(1), localhost_with_port(101), true));
    let six = peers.iter().find(|p| p.0 == Id::from_u16(6)).unwrap();
    assert_eq!(*six, (Id::from_u16(6), localhost_with_port(6), false));
    assert_eq!(router.select_search_peers(2).len(), 2);
}

#[test]
fn select_broadcast_peers_one_per_bucket() {
    let router = connected_router();
    // Buckets: 1 -> 0, 2 and 3 -> 1, 4 and 5 -> 2.
    let selected = router.select_broadcast_peers(256).unwrap();
    let heights: Vec<u32> = selected.iter().map(|p| p.0).collect();
    assert_eq!(heights, vec![0, 1, 2]);
    assert_eq!(selected[0].1, localhost_with_port(101));
    assert!(selected[1].1 == localhost_with_port(102) || selected[1].1 == localhost_with_port(103));
    let selected = router.select_broadcast_peers(u32::MAX).unwrap();
    assert_eq!(selected.len(), 3);
}

#[test]
fn process_message_from_unknown_sender_is_ignored() {
    let mut router = connected_router();
    let response = router.process_message::<(), Text>(
        (),
        Message::Ping(Ping { nonce: 7, id: Id::from_u16(1) }),
        localhost_with_port(999),
    );
    assert!(response.is_none());
}

#[test]
fn ping_is_answered_with_pong() {
    let mut router = connected_router();
    let response = router.process_message::<(), Text>(
        (),
        Message::Ping(Ping { nonce: 7, id: Id::from_u16(1) }),
        localhost_with_port(101),
    );
    match response {
        Some(Response::Unicast(Message::Pong(pong))) => {
            assert_eq!(pong.nonce, 7);
            assert_eq!(pong.id, Id::from_u16(0));
        }
        _ => panic!("expected a pong"),
    }
    assert!(router.peer_meta(&Id::from_u16(1)).unwrap().last_seen.is_some());
}

#[test]
fn find_k_nodes_is_answered_with_k_nodes() {
    let mut router = connected_router();
    let response = router.process_message::<(), Text>(
        (),
        Message::FindKNodes(FindKNodes { nonce: 9, id: Id::from_u16(0) }),
        localhost_with_port(101),
    );
    match response {
        Some(Response::Unicast(Message::KNodes(k_nodes))) => {
            assert_eq!(k_nodes.nonce, 9);
            // k is 3 for this router.
            assert_eq!(k_nodes.nodes.len(), 3);
            assert_eq!(k_nodes.nodes[0], (Id::from_u16(1), localhost_with_port(1)));
        }
        _ => panic!("expected k nodes"),
    }
}

#[test]
fn k_nodes_are_inserted() {
    let mut router = connected_router();
    let response = router.process_message::<(), Text>(
        (),
        Message::KNodes(KNodes {
            nonce: 1,
            nodes: vec![
                (Id::from_u16(8), localhost_with_port(8)),
                (Id::from_u16(0), localhost_with_port(0)),
            ],
        }),
        localhost_with_port(101),
    );
    assert!(response.is_none());
    assert_eq!(router.peer_id(localhost_with_port(8)), Some(Id::from_u16(8)));
    // The local identifier is not inserted.
    assert!(router.peer_id(localhost_with_port(0)).is_none());
}

#[test]
fn valid_chunk_is_broadcast() {
    let mut router = connected_router();
    let data = Bytes::from_static(b"Hello, world!");
    let response = router.process_message::<(), Text>(
        (),
        Message::Chunk(Chunk { nonce: 3, height: 2, data: data.clone() }),
        localhost_with_port(101),
    );
    match response {
        Some(Response::Broadcast(broadcast)) => {
            assert_eq!(broadcast.len(), 2);
            assert_eq!(broadcast[0].0, localhost_with_port(101));
            assert_eq!(
                broadcast[0].1,
                Message::Chunk(Chunk { nonce: 3, height: 0, data: data.clone() })
            );
            match &broadcast[1].1 {
                Message::Chunk(chunk) => assert_eq!(chunk.height, 1),
                _ => panic!("expected a chunk"),
            }
        }
        _ => panic!("expected a broadcast"),
    }
}

#[test]
fn invalid_or_final_chunk_is_not_broadcast() {
    let mut router = connected_router();
    let response = router.process_message::<(), Text>(
        (),
        Message::Chunk(Chunk { nonce: 3, height: 2, data: Bytes::from_static(b"bad") }),
        localhost_with_port(101),
    );
    assert!(response.is_none());
    let response = router.process_message::<(), Text>(
        (),
        Message::Chunk(Chunk { nonce: 3, height: 2, data: Bytes::from_static(&[0xff, 0xfe]) }),
        localhost_with_port(101),
    );
    assert!(response.is_none());
    let response = router.process_message::<(), Text>(
        (),
        Message::Chunk(Chunk { nonce: 3, height: 0, data: Bytes::from_static(b"Hello, world!") }),
        localhost_with_port(101),
    );
    assert!(response.is_none());
}

#[test]
fn broadcast_chunk_only_when_valid() {
    let router = connected_router();
    let chunk = Chunk { nonce: 5, height: 3, data: Bytes::from_static(b"x") };
    assert!(router.broadcast_chunk(&chunk, false).is_none());
    let copies = router.broadcast_chunk(&chunk, true).unwrap();
    let heights: Vec<u32> = copies.iter().map(|c| c.1.height).collect();
    assert_eq!(heights, vec![0, 1, 2]);
    assert!(copies.iter().all(|c| c.1.nonce == 5 && c.1.data == chunk.data));
    let last = Chunk { nonce: 5, height: 0, data: Bytes::from_static(b"x") };
    assert!(router.broadcast_chunk(&last, true).is_none());
}

#[test]
fn k_nodes_leave_the_router_as_inserting_in_order() {
    let nodes = vec![
        (Id::from_u16(8), localhost_with_port(8)),
        (Id::from_u16(3), localhost_with_port(33)),
        (Id::from_u16(8), localhost_with_port(88)),
    ];
    let base = connected_router();
    let mut processed = base.clone();
    let mut inserted = base.clone();
    processed.process_message::<(), Text>(
        (),
        Message::KNodes(KNodes { nonce: 1, nodes: nodes.clone() }),
        localhost_with_port(101),
    );
    for (id, addr) in nodes {
        inserted.insert(id, addr);
    }
    for port in [1, 2, 3, 4, 5, 8, 33, 88, 101, 102, 103, 104, 105] {
        let addr = localhost_with_port(port);
        assert_eq!(processed.peer_id(addr), inserted.peer_id(addr));
    }
    for i in [1u16, 2, 3, 4, 5, 8] {
        let id = Id::from_u16(i);
        let p = processed.peer_meta(&id).unwrap();
        let q = inserted.peer_meta(&id).unwrap();
        assert_eq!(p.listening_addr, q.listening_addr);
        assert_eq!(p.conn_addr, q.conn_addr);
        assert_eq!(p.conn_state, q.conn_state);
    }
    assert_eq!(processed.peer_meta(&Id::from_u16(3)).unwrap().listening_addr, localhost_with_port(33));
    assert_eq!(processed.peer_meta(&Id::from_u16(8)).unwrap().listening_addr, localhost_with_port(88));
    // Only the sender was seen.
    for i in [2u16, 3, 4, 5, 8] {
        let id = Id::from_u16(i);
        assert_eq!(
            processed.peer_meta(&id).unwrap().last_seen,
            inserted.peer_meta(&id).unwrap().last_seen
        );
    }
    assert!(processed.peer_meta(&Id::from_u16(8)).unwrap().last_seen.is_none());
    assert!(
        processed.peer_meta(&Id::from_u16(1)).unwrap().last_seen.unwrap()
            >= inserted.peer_meta(&Id::from_u16(1)).unwrap().last_seen.unwrap()
    );
    assert_eq!(processed.disconnected_addrs(), inserted.disconnected_addrs());
    assert_eq!(processed.connected_addrs(), inserted.connected_addrs());
}

#[test]
fn init_marks_only_the_sender_seen() {
    let mut router = connected_router();
    let before = *router.peer_meta(&Id::from_u16(2)).unwrap();
    let other = *router.peer_meta(&Id::from_u16(3)).unwrap();
    let response = router.process_message::<(), Text>(
        (),
        Message::Init(Init { nonce: 4, id: Id::from_u16(2), port: 7 }),
        localhost_with_port(102),
    );
    assert!(response.is_none());
    let after = router.peer_meta(&Id::from_u16(2)).unwrap();
    assert!(after.last_seen.unwrap() >= before.last_seen.unwrap());
    assert_eq!(after.listening_addr, before.listening_addr);
    assert_eq!(after.conn_addr, before.conn_addr);
    assert_eq!(after.conn_state, before.conn_state);
    assert_same_meta(router.peer_meta(&Id::from_u16(3)).unwrap(), &other);
    assert_eq!(router.connected_addrs().len(), 5);
}

#[test]
fn kadcast_copies_go_to_one_peer_per_bucket() {
    let router = connected_router();
    let chunk = Chunk { nonce: 5, height: Id::BITS as u32, data: Bytes::from_static(b"x") };
    let copies = router.broadcast_chunk(&chunk, true).unwrap();
    // Identifiers 1..=5 fall in buckets 0, 1 and 2.
    let heights: Vec<u32> = copies.iter().map(|(_, c)| c.height).collect();
    assert_eq!(heights, vec![0, 1, 2]);
    assert_eq!(copies[0].0, localhost_with_port(101));
    assert!(copies.iter().all(|(_, c)| c.nonce == 5 && c.data == Bytes::from_static(b"x")));
}

struct Raw(Bytes);

impl TryFrom<Bytes> for Raw {
    type Error = ();

    fn try_from(bytes: Bytes) -> Result<Self, ()> {
        Ok(Raw(bytes))
    }
}

// Keeps the provided methods.
impl ProcessData<()> for Raw {}

#[test]
fn provided_verify_data_accepts_everything() {
    let raw = Raw(Bytes::from_static(b"anything"));
    assert!(raw.verify_data(()));
    assert_eq!(raw.0, Bytes::from_static(b"anything"));
    let mut router = connected_router();
    let response = router.process_message::<(), Raw>(
        (),
        Message::Chunk(Chunk { nonce: 3, height: 2, data: Bytes::from_static(b"anything") }),
        localhost_with_port(101),
    );
    match response {
        Some(Response::Broadcast(messages)) => assert_eq!(messages.len(), 2),
        _ => panic!("expected a broadcast"),
    }
}
