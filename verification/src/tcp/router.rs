//! The TCP router: a routing table that tracks, for each peer, its listening address and the
//! address of the connection to it.

use bytes::Bytes;
use time::OffsetDateTime;
use vstd::prelude::*;
use vstd::std_specs::convert::TryFromSpec;

use crate::addr::PeerAddr;
use crate::closest::{is_closest_selection, select_closest};
use crate::message::{Chunk, FindKNodes, KNodes, Message, Nonce, Ping, Pong, Response};
use crate::traits::ProcessData;
use crate::assoc::{
    assoc_get, assoc_put, key_index, keys_unique, lemma_assoc_push, lemma_assoc_remove, lemma_assoc_update,
    lemma_key_index, to_map,
};
use crate::id::{lemma_log2_distance_none, log2_distance_spec, Id};
use crate::outside::{now_utc, random_id_bytes};
use crate::routing_table::{lemma_log2_distance_bound, RoutingTable};

verus! {

/// Whether a peer is connected.
#[derive(Debug, Clone, Copy, PartialEq, Eq, Structural)]
pub enum ConnState {
    Connected,
    Disconnected,
}

/// What the router knows of a peer.
#[derive(Debug, Clone, Copy)]
pub struct TcpMeta {
    /// The address the peer listens on.
    pub listening_addr: PeerAddr,
    /// The address of the connection to the peer, while it is connected.
    pub conn_addr: Option<PeerAddr>,
    /// Whether the peer is connected.
    pub conn_state: ConnState,
    /// When a message of the peer was last seen.
    pub last_seen: Option<OffsetDateTime>,
}

impl TcpMeta {
    fn new(
        listening_addr: PeerAddr,
        conn_addr: Option<PeerAddr>,
        conn_state: ConnState,
        last_seen: Option<OffsetDateTime>,
    ) -> (meta: Self)
        ensures
            meta == (TcpMeta { listening_addr, conn_addr, conn_state, last_seen }),
    {
        TcpMeta { listening_addr, conn_addr, conn_state, last_seen }
    }
}

/// The meta data of a peer that was just inserted.
pub open spec fn fresh_meta(listening_addr: PeerAddr) -> TcpMeta {
    TcpMeta {
        listening_addr,
        conn_addr: None,
        conn_state: ConnState::Disconnected,
        last_seen: None,
    }
}

/// The state of a TCP router.
pub struct TcpRouterView {
    /// The node's local identifier.
    pub local_id: Id,
    /// The maximum number of identifiers in a bucket.
    pub max_bucket_size: u8,
    /// The number of peers shared in answer to a FIND_K_NODES query.
    pub k: u8,
    /// The buckets that exist: bucket `i` holds the connected identifiers at log2 distance `i`.
    pub buckets: Map<u32, Set<Id>>,
    /// The known peers (connected and disconnected) with their meta data, in the order in which
    /// they became known; no identifier occurs twice.
    pub peers: Seq<(Id, TcpMeta)>,
    /// The identifier that each known address (listening or connection address) belongs to.
    pub addrs: Map<PeerAddr, Id>,
}

impl TcpRouterView {
    /// The meta data of peer `id`, if it is known.
    pub open spec fn peer(self, id: Id) -> Option<TcpMeta> {
        assoc_get(self.peers, id)
    }

    /// Bucket `i`; empty when it does not exist.
    pub open spec fn bucket(self, i: u32) -> Set<Id> {
        if self.buckets.contains_key(i) {
            self.buckets[i]
        } else {
            Set::empty()
        }
    }

    /// The identifier that `addr` belongs to, if it is known.
    pub open spec fn peer_id(self, addr: PeerAddr) -> Option<Id> {
        if self.addrs.contains_key(addr) {
            Some(self.addrs[addr])
        } else {
            None
        }
    }

    /// Whether `addr` belongs to a known, connected peer.
    pub open spec fn is_connected(self, addr: PeerAddr) -> bool {
        match self.peer_id(addr) {
            Some(id) => match self.peer(id) {
                Some(meta) => meta.conn_state == ConnState::Connected,
                None => false,
            },
            None => false,
        }
    }

    /// What a router in this state keeps true.
    pub open spec fn wf(self) -> bool {
        &&& keys_unique(self.peers)
        &&& forall|i: u32| #[trigger]
            self.buckets.contains_key(i) ==> i < 256 && self.buckets[i].finite()
                && self.buckets[i].len() <= self.max_bucket_size
        &&& forall|i: u32, id: Id|
            self.buckets.contains_key(i) && #[trigger] self.buckets[i].contains(id)
                ==> log2_distance_spec(self.local_id, id) == Some(i) && (self.peer(id) matches Some(
                meta) && meta.conn_state == ConnState::Connected)
        &&& forall|j: int|
            0 <= j < self.peers.len() && (#[trigger] self.peers[j]).1.conn_state
                == ConnState::Connected ==> self.peers[j].1.conn_addr is Some && (
            log2_distance_spec(self.local_id, self.peers[j].0) matches Some(i) && self.bucket(
                i,
            ).contains(self.peers[j].0))
        &&& forall|a: PeerAddr| #[trigger] self.addrs.contains_key(a) ==> self.addrs[a] != self.local_id
        &&& forall|a: PeerAddr| #[trigger] self.addrs.contains_key(a) ==> self.peer(self.addrs[a]) is Some
    }

    /// What `can_connect` answers for `id`.
    pub open spec fn can_connect(self, id: Id) -> (bool, Option<u32>) {
        match log2_distance_spec(self.local_id, id) {
            None => (false, None),
            Some(i) => if self.bucket(i).len() < self.max_bucket_size {
                (true, Some(i))
            } else {
                (false, None)
            },
        }
    }

    /// The state after the bucket of `id` was made, if it did not exist yet.
    pub open spec fn with_bucket_for(self, id: Id) -> Self {
        match log2_distance_spec(self.local_id, id) {
            None => self,
            Some(i) => TcpRouterView { buckets: self.buckets.insert(i, self.bucket(i)), ..self },
        }
    }

    /// The state after `id` was recorded as listening on `addr`: a known peer keeps its
    /// connection state and gets the new listening address, an unknown one is added as
    /// disconnected; the address is mapped to `id`.
    pub open spec fn inserted(self, id: Id, addr: PeerAddr) -> Self {
        let i = key_index(self.peers, id);
        TcpRouterView {
            peers: if i >= 0 {
                self.peers.update(
                    i,
                    (id, TcpMeta { listening_addr: addr, ..self.peers[i].1 }),
                )
            } else {
                self.peers.push((id, fresh_meta(addr)))
            },
            addrs: self.addrs.insert(addr, id),
            ..self
        }
    }

    /// The state after `insert(id, addr)`: unchanged for the local identifier.
    pub open spec fn after_insert(self, id: Id, addr: PeerAddr) -> Self {
        if id == self.local_id {
            self
        } else {
            self.inserted(id, addr)
        }
    }

    /// The state after inserting each of `nodes` in order.
    pub open spec fn after_insert_all(self, nodes: Seq<(Id, PeerAddr)>) -> Self
        decreases nodes.len(),
    {
        if nodes.len() == 0 {
            self
        } else {
            self.after_insert_all(nodes.drop_last()).after_insert(nodes.last().0, nodes.last().1)
        }
    }

    /// The state after `set_connected(id, conn_addr)`, with `t` as the time it was seen.
    pub open spec fn after_set_connected(self, id: Id, conn_addr: PeerAddr, t: OffsetDateTime) -> Self {
        let made = self.with_bucket_for(id);
        let i = key_index(self.peers, id);
        if self.can_connect(id).0 && i >= 0 {
            let b = log2_distance_spec(self.local_id, id)->Some_0;
            TcpRouterView {
                buckets: made.buckets.insert(b, self.bucket(b).insert(id)),
                addrs: self.addrs.insert(conn_addr, id),
                peers: self.peers.update(
                    i,
                    (
                        id,
                        TcpMeta {
                            conn_addr: Some(conn_addr),
                            conn_state: ConnState::Connected,
                            last_seen: Some(t),
                            ..self.peers[i].1
                        },
                    ),
                ),
                ..made
            }
        } else {
            made
        }
    }

    /// Whether disconnecting `conn_addr` finds a peer with an existing bucket and a connection
    /// address to work on.
    pub open spec fn disconnect_applies(self, conn_addr: PeerAddr) -> bool {
        match self.peer_id(conn_addr) {
            Some(id) => match (self.peer(id), log2_distance_spec(self.local_id, id)) {
                (Some(meta), Some(i)) => self.buckets.contains_key(i) && meta.conn_addr is Some,
                _ => false,
            },
            None => false,
        }
    }

    /// The state after `set_disconnected(conn_addr)`: the peer leaves its bucket, its connection
    /// address is forgotten, and it is marked disconnected.
    pub open spec fn after_set_disconnected(self, conn_addr: PeerAddr) -> Self {
        if self.disconnect_applies(conn_addr) {
            let id = self.addrs[conn_addr];
            let i = log2_distance_spec(self.local_id, id)->Some_0;
            let p = key_index(self.peers, id);
            let meta = self.peers[p].1;
            TcpRouterView {
                buckets: self.buckets.insert(i, self.buckets[i].remove(id)),
                addrs: self.addrs.remove(meta.conn_addr->Some_0),
                peers: self.peers.update(
                    p,
                    (id, TcpMeta { conn_addr: None, conn_state: ConnState::Disconnected, ..meta }),
                ),
                ..self
            }
        } else {
            self
        }
    }

    /// The state after peer `id` was seen at time `t`.
    pub open spec fn touched(self, id: Id, t: OffsetDateTime) -> Self {
        let p = key_index(self.peers, id);
        if p >= 0 {
            TcpRouterView {
                peers: self.peers.update(
                    p,
                    (id, TcpMeta { last_seen: Some(t), ..self.peers[p].1 }),
                ),
                ..self
            }
        } else {
            self
        }
    }

    /// Each known peer with its listening address.
    pub open spec fn listening_entries(self) -> Seq<(Id, PeerAddr)> {
        Seq::new(self.peers.len(), |j: int| (self.peers[j].0, self.peers[j].1.listening_addr))
    }

    /// Each known peer with the address to reach it by (its connection address when connected,
    /// else its listening address) and whether it is connected.
    pub open spec fn search_entries(self) -> Seq<(Id, PeerAddr, bool)> {
        Seq::new(
            self.peers.len(),
            |j: int|
                if self.peers[j].1.conn_state == ConnState::Connected {
                    (self.peers[j].0, self.peers[j].1.conn_addr->Some_0, true)
                } else {
                    (self.peers[j].0, self.peers[j].1.listening_addr, false)
                },
        )
    }

    /// The log2 distance of each known peer to `target`.
    pub open spec fn distances_to(self, target: Id) -> Seq<Option<u32>> {
        Seq::new(self.peers.len(), |j: int| log2_distance_spec(self.peers[j].0, target))
    }

    /// The indices of the non-empty buckets below `n`, in increasing order.
    pub open spec fn nonempty_buckets_below(self, n: nat) -> Seq<u32>
        decreases n,
    {
        if n == 0 {
            Seq::empty()
        } else if self.bucket((n - 1) as u32).is_empty() {
            self.nonempty_buckets_below((n - 1) as nat)
        } else {
            self.nonempty_buckets_below((n - 1) as nat).push((n - 1) as u32)
        }
    }

    /// `addr` is the connection address of a peer in bucket `h`.
    pub open spec fn conn_addr_in_bucket(self, h: u32, addr: PeerAddr) -> bool {
        exists|id: Id| #[trigger]
            self.bucket(h).contains(id) && (self.peer(id) matches Some(meta) && meta.conn_addr
                == Some(addr))
    }

    /// `sel` picks one peer in each non-empty bucket below `height`, in increasing bucket order,
    /// as the bucket index and the peer's connection address.
    pub open spec fn is_broadcast_selection(self, height: u32, sel: Seq<(u32, PeerAddr)>) -> bool {
        let hs = self.nonempty_buckets_below(height as nat);
        &&& sel.len() == hs.len()
        &&& forall|j: int|
            0 <= j < sel.len() ==> (#[trigger] sel[j]).0 == hs[j] && self.conn_addr_in_bucket(
                sel[j].0,
                sel[j].1,
            )
    }

    /// What processing `message` does to a router in this state (after the sender was seen),
    /// ending in state `next` and answering `response`.
    pub open spec fn message_outcome(
        self,
        message: Message,
        next: Self,
        response: Option<Response>,
    ) -> bool {
        match message {
            Message::Init(_) => next == self && response is None,
            Message::Ping(ping) => next == self && response == Some(
                Response::Unicast(Message::Pong(Pong { nonce: ping.nonce, id: self.local_id })),
            ),
            Message::Pong(_) => next == self && response is None,
            Message::FindKNodes(find_k_nodes) => {
                &&& next == self
                &&& response matches Some(Response::Unicast(Message::KNodes(k_nodes)))
                &&& k_nodes.nonce == find_k_nodes.nonce
                &&& is_closest_selection(
                    self.listening_entries(),
                    self.distances_to(find_k_nodes.id),
                    self.k as nat,
                    k_nodes.nodes@,
                )
            },
            Message::KNodes(k_nodes) => next == self.after_insert_all(k_nodes.nodes@)
                && response is None,
            Message::Chunk(chunk) => {
                &&& next == self
                &&& chunk.height == 0 ==> response is None
                &&& response is None || (response matches Some(Response::Broadcast(broadcast))
                    && exists|sel: Seq<(u32, PeerAddr)>| #[trigger]
                    self.is_broadcast_selection(chunk.height, sel) && broadcast@
                        == chunk_messages(sel, chunk.nonce, chunk.data))
            },
        }
    }

    /// What `set_disconnected(conn_addr)` answers: whether the peer was in its bucket and its
    /// connection address was known.
    pub open spec fn disconnect_result(self, conn_addr: PeerAddr) -> bool {
        if self.disconnect_applies(conn_addr) {
            let id = self.addrs[conn_addr];
            let i = log2_distance_spec(self.local_id, id)->Some_0;
            let meta = self.peers[key_index(self.peers, id)].1;
            self.buckets[i].contains(id) && self.addrs.contains_key(meta.conn_addr->Some_0)
        } else {
            false
        }
    }
}

/// Inserting keeps the keys unique, and each known peer keeps its place in the list and its
/// last-seen time.
pub(crate) proof fn lemma_after_insert_keeps_seen(v: TcpRouterView, a: Id, addr: PeerAddr)
    requires
        keys_unique(v.peers),
    ensures
        keys_unique(v.after_insert(a, addr).peers),
        v.peers.len() <= v.after_insert(a, addr).peers.len(),
        forall|x: Id|
            #![trigger key_index(v.after_insert(a, addr).peers, x)]
            key_index(v.peers, x) >= 0 ==> key_index(v.after_insert(a, addr).peers, x)
                == key_index(v.peers, x) && v.after_insert(a, addr).peers[key_index(
                v.peers,
                x,
            )].1.last_seen == v.peers[key_index(v.peers, x)].1.last_seen,
{
    broadcast use lemma_key_index;

    if a != v.local_id {
        let i = key_index(v.peers, a);
        if i >= 0 {
            lemma_assoc_update(
                v.peers,
                i,
                TcpMeta { listening_addr: addr, ..v.peers[i].1 },
            );
        } else {
            lemma_assoc_push(v.peers, a, fresh_meta(addr));
        }
    }
}

/// Inserting a sequence of peers keeps the keys unique, and each known peer keeps its place in
/// the list and its last-seen time.
pub(crate) proof fn lemma_after_insert_all_keeps_seen(v: TcpRouterView, nodes: Seq<(Id, PeerAddr)>)
    requires
        keys_unique(v.peers),
    ensures
        keys_unique(v.after_insert_all(nodes).peers),
        forall|x: Id|
            #![trigger key_index(v.after_insert_all(nodes).peers, x)]
            key_index(v.peers, x) >= 0 ==> key_index(v.after_insert_all(nodes).peers, x)
                == key_index(v.peers, x) && v.after_insert_all(nodes).peers[key_index(
                v.peers,
                x,
            )].1.last_seen == v.peers[key_index(v.peers, x)].1.last_seen,
    decreases nodes.len(),
{
    if nodes.len() > 0 {
        let w = v.after_insert_all(nodes.drop_last());
        lemma_after_insert_all_keeps_seen(v, nodes.drop_last());
        lemma_after_insert_keeps_seen(w, nodes.last().0, nodes.last().1);
        assert forall|x: Id| key_index(v.peers, x) >= 0 implies key_index(
            v.after_insert_all(nodes).peers,
            x,
        ) == key_index(v.peers, x) && v.after_insert_all(nodes).peers[key_index(
            v.peers,
            x,
        )].1.last_seen == v.peers[key_index(v.peers, x)].1.last_seen by {
            assert(key_index(w.peers, x) == key_index(v.peers, x));
            assert(key_index(w.after_insert(nodes.last().0, nodes.last().1).peers, x)
                == key_index(w.peers, x));
        }
    }
}

/// Marking a known peer as seen sets its last-seen time and changes nothing else; the peer of a
/// known address is known.
pub(crate) proof fn lemma_sender_seen(v: TcpRouterView, id: Id, t: OffsetDateTime)
    requires
        v.wf(),
        v.peer(id) is Some,
    ensures
        v.touched(id, t).wf(),
        v.touched(id, t).peer(id) == Some(TcpMeta { last_seen: Some(t), ..v.peer(id)->Some_0 }),
        forall|x: Id| x != id ==> #[trigger] v.touched(id, t).peer(x) == v.peer(x),
        v.touched(id, t).buckets == v.buckets,
        v.touched(id, t).addrs == v.addrs,
        v.touched(id, t).local_id == v.local_id,
        key_index(v.touched(id, t).peers, id) == key_index(v.peers, id),
{
    broadcast use lemma_key_index;

    let p = key_index(v.peers, id);
    let w = v.touched(id, t);
    lemma_assoc_update(v.peers, p, TcpMeta { last_seen: Some(t), ..v.peers[p].1 });
    assert forall|x: Id| x != id implies #[trigger] w.peer(x) == v.peer(x) by {
        if key_index(v.peers, x) >= 0 {
            assert(key_index(v.peers, x) != p);
        }
    }
    assert forall|j: int|
        0 <= j < w.peers.len() && (#[trigger] w.peers[j]).1.conn_state
            == ConnState::Connected implies w.peers[j].1.conn_addr is Some && (log2_distance_spec(
        w.local_id,
        w.peers[j].0,
    ) matches Some(i) && w.bucket(i).contains(w.peers[j].0)) by {
        assert(v.peers[j].1.conn_state == ConnState::Connected);
    }
    assert forall|i: u32, x: Id| w.buckets.contains_key(i) && #[trigger] w.buckets[i].contains(
        x,
    ) implies log2_distance_spec(w.local_id, x) == Some(i) && (w.peer(x) matches Some(meta)
        && meta.conn_state == ConnState::Connected) by {
        assert(v.buckets[i].contains(x));
    }
    assert forall|a: PeerAddr| #[trigger] w.addrs.contains_key(a) implies w.peer(w.addrs[a]) is Some by {
        assert(v.peer(v.addrs[a]) is Some);
    }
}

/// Marking a known peer as seen and inserting a peer can be done in either order.
pub(crate) proof fn lemma_touch_insert_commute(
    v: TcpRouterView,
    id: Id,
    t: OffsetDateTime,
    a: Id,
    addr: PeerAddr,
)
    requires
        keys_unique(v.peers),
        key_index(v.peers, id) >= 0,
    ensures
        v.touched(id, t).after_insert(a, addr) == v.after_insert(a, addr).touched(id, t),
{
    broadcast use lemma_key_index;

    let p = key_index(v.peers, id);
    let touched = v.touched(id, t);
    lemma_assoc_update(v.peers, p, TcpMeta { last_seen: Some(t), ..v.peers[p].1 });
    lemma_after_insert_keeps_seen(v, a, addr);
    if a != v.local_id {
        let left = touched.after_insert(a, addr);
        let right = v.after_insert(a, addr).touched(id, t);
        assert(key_index(v.after_insert(a, addr).peers, id) == p);
        assert(left.peers =~= right.peers);
        assert(left.addrs == right.addrs);
        assert(left.buckets == right.buckets);
    }
}

/// Marking a known peer as seen and inserting a sequence of peers can be done in either order.
pub(crate) proof fn lemma_touch_insert_all_commute(
    v: TcpRouterView,
    id: Id,
    t: OffsetDateTime,
    nodes: Seq<(Id, PeerAddr)>,
)
    requires
        keys_unique(v.peers),
        key_index(v.peers, id) >= 0,
    ensures
        v.touched(id, t).after_insert_all(nodes) == v.after_insert_all(nodes).touched(id, t),
    decreases nodes.len(),
{
    if nodes.len() > 0 {
        let w = v.after_insert_all(nodes.drop_last());
        lemma_touch_insert_all_commute(v, id, t, nodes.drop_last());
        lemma_after_insert_all_keeps_seen(v, nodes.drop_last());
        assert(key_index(w.peers, id) == key_index(v.peers, id));
        lemma_touch_insert_commute(w, id, t, nodes.last().0, nodes.last().1);
    }
}

/// The listening addresses of the disconnected peers, in peer order.
pub open spec fn disconnected_listening_addrs(peers: Seq<(Id, TcpMeta)>) -> Seq<PeerAddr>
    decreases peers.len(),
{
    if peers.len() == 0 {
        Seq::empty()
    } else if peers.last().1.conn_state == ConnState::Disconnected {
        disconnected_listening_addrs(peers.drop_last()).push(peers.last().1.listening_addr)
    } else {
        disconnected_listening_addrs(peers.drop_last())
    }
}

/// The connection addresses of the connected peers, in peer order.
pub open spec fn connected_conn_addrs(peers: Seq<(Id, TcpMeta)>) -> Seq<PeerAddr>
    decreases peers.len(),
{
    if peers.len() == 0 {
        Seq::empty()
    } else if peers.last().1.conn_state == ConnState::Connected {
        connected_conn_addrs(peers.drop_last()).push(peers.last().1.conn_addr->Some_0)
    } else {
        connected_conn_addrs(peers.drop_last())
    }
}

/// The CHUNK message for each selected peer: same nonce and data, the peer's bucket index as
/// height, sent to the peer's address.
pub open spec fn chunk_messages(sel: Seq<(u32, PeerAddr)>, nonce: Nonce, data: Bytes) -> Seq<
    (PeerAddr, Message),
> {
    Seq::new(
        sel.len(),
        |j: int| (sel[j].1, Message::Chunk(Chunk { nonce, height: sel[j].0, data })),
    )
}

/// A copy of a chunk for each selected peer: same nonce and data, the peer's bucket index as
/// height, with the peer's address.
pub open spec fn chunk_copies(sel: Seq<(u32, PeerAddr)>, nonce: Nonce, data: Bytes) -> Seq<
    (PeerAddr, Chunk),
> {
    Seq::new(sel.len(), |j: int| (sel[j].1, Chunk { nonce, height: sel[j].0, data }))
}

/// The core router implementation.
#[derive(Debug, Clone)]
pub struct TcpRouter {
    /// The routing table backing this router.
    rt: RoutingTable<PeerAddr, TcpMeta>,
}

/// The invariant of a TCP routing table: the shared one, bucket members are connected, and a
/// connected peer has a connection address.
pub(crate) open spec fn tcp_wf(rt: &RoutingTable<PeerAddr, TcpMeta>) -> bool {
    &&& rt.base_wf()
    &&& forall|i: u32, id: Id| #[trigger]
        rt.bucket(i).contains(id) ==> (assoc_get(rt.peer_list@, id) matches Some(meta)
            && meta.conn_state == ConnState::Connected)
    &&& forall|j: int|
        0 <= j < rt.peer_list@.len() && (#[trigger] rt.peer_list@[j]).1.conn_state
            == ConnState::Connected ==> rt.peer_list@[j].1.conn_addr is Some && (log2_distance_spec(
            rt.local_id,
            rt.peer_list@[j].0,
        ) matches Some(i) && rt.bucket(i).contains(rt.peer_list@[j].0))
    &&& forall|j: int|
        0 <= j < rt.id_list@.len() ==> key_index(rt.peer_list@, (#[trigger] rt.id_list@[j]).1)
            >= 0
}

/// The state that a TCP routing table stands for.
pub(crate) open spec fn tcp_view(rt: &RoutingTable<PeerAddr, TcpMeta>) -> TcpRouterView {
    TcpRouterView {
        local_id: rt.local_id,
        max_bucket_size: rt.max_bucket_size,
        k: rt.k,
        buckets: rt.buckets_view(),
        peers: rt.peer_list@,
        addrs: to_map(rt.id_list@),
    }
}

proof fn lemma_tcp_view_wf(rt: &RoutingTable<PeerAddr, TcpMeta>)
    requires
        tcp_wf(rt),
    ensures
        tcp_view(rt).wf(),
        forall|i: u32| #[trigger] tcp_view(rt).bucket(i) == rt.bucket(i),
{
    broadcast use lemma_key_index;

    rt.lemma_bucket_view();
    let v = tcp_view(rt);
    assert forall|i: u32| #[trigger] v.buckets.contains_key(i) implies i < 256
        && v.buckets[i].finite() && v.buckets[i].len() <= v.max_bucket_size by {
        rt.lemma_bucket_members(i as int);
    }
    assert forall|i: u32, id: Id| v.buckets.contains_key(i) && #[trigger] v.buckets[i].contains(id)
        implies log2_distance_spec(v.local_id, id) == Some(i) && (v.peer(id) matches Some(meta)
        && meta.conn_state == ConnState::Connected) by {
        rt.lemma_bucket_members(i as int);
        assert(rt.bucket(i).contains(id));
    }
    assert forall|a: PeerAddr| #[trigger] v.addrs.contains_key(a) implies v.addrs[a] != v.local_id by {
        assert(rt.id_list@[key_index(rt.id_list@, a)].1 != rt.local_id);
    }
}

/// The shared invariant and the TCP one follow from each other once the buckets and the
/// connection states are known to be unchanged.
proof fn lemma_tcp_wf_same_members(
    a: RoutingTable<PeerAddr, TcpMeta>,
    b: RoutingTable<PeerAddr, TcpMeta>,
)
    requires
        tcp_wf(&a),
        b.base_wf(),
        forall|i: u32| #[trigger] b.bucket(i) == a.bucket(i),
        forall|id: Id|
            #[trigger] assoc_get(a.peer_list@, id) matches Some(m) && m.conn_state
                == ConnState::Connected ==> (assoc_get(b.peer_list@, id) matches Some(m2)
                && m2.conn_state == ConnState::Connected),
        forall|j: int|
            0 <= j < b.peer_list@.len() && (#[trigger] b.peer_list@[j]).1.conn_state
                == ConnState::Connected ==> b.peer_list@[j].1.conn_addr is Some && (
            log2_distance_spec(b.local_id, b.peer_list@[j].0) matches Some(i) && b.bucket(
                i,
            ).contains(b.peer_list@[j].0)),
        forall|j: int|
            0 <= j < b.id_list@.len() ==> key_index(b.peer_list@, (#[trigger] b.id_list@[j]).1)
                >= 0,
    ensures
        tcp_wf(&b),
{
    assert forall|i: u32, id: Id| #[trigger] b.bucket(i).contains(id) implies (assoc_get(
        b.peer_list@,
        id,
    ) matches Some(meta) && meta.conn_state == ConnState::Connected) by {
        assert(a.bucket(i).contains(id));
        assert(assoc_get(a.peer_list@, id) matches Some(m) && m.conn_state == ConnState::Connected);
    }
}

/// Records `id` as listening on `addr`.
fn tcp_insert(rt: &mut RoutingTable<PeerAddr, TcpMeta>, id: Id, listening_addr: PeerAddr) -> (res:
    bool)
    requires
        tcp_wf(old(rt)),
    ensures
        tcp_wf(final(rt)),
        res == (id != old(rt).local_id),
        tcp_view(final(rt)) == tcp_view(old(rt)).after_insert(id, listening_addr),
{
    broadcast use lemma_key_index;

    if id == rt.local_id {
        return false;
    }
    let ghost a = *rt;
    match rt.find_peer(&id) {
        Some(p) => {
            let meta = rt.peer_list[p].1;
            let new_meta = TcpMeta { listening_addr, ..meta };
            rt.peer_list.set(p, (id, new_meta));
            proof {
                crate::routing_table::lemma_base_wf_peer_update(a, *rt, p as int, new_meta);
            }
        },
        None => {
            rt.peer_list.push(
                (id, TcpMeta::new(listening_addr, None, ConnState::Disconnected, None)),
            );
            proof {
                crate::routing_table::lemma_base_wf_peer_push(
                    a,
                    *rt,
                    id,
                    fresh_meta(listening_addr),
                );
            }
        },
    }
    let ghost b = *rt;
    let j = find_addr(&rt.id_list, &listening_addr);
    assoc_put(&mut rt.id_list, j, listening_addr, id);
    proof {
        assert forall|x: int| 0 <= x < rt.id_list@.len() implies #[trigger] rt.id_list@[x].1
            != rt.local_id by {
            if x < b.id_list@.len() && rt.id_list@[x] == b.id_list@[x] {
                assert(b.id_list@[x].1 != b.local_id);
            }
        }
        crate::routing_table::lemma_base_wf_ids(b, *rt);
        assert forall|k: Id| #[trigger]
            assoc_get(a.peer_list@, k) matches Some(m) && m.conn_state == ConnState::Connected
                implies (assoc_get(rt.peer_list@, k) matches Some(m2) && m2.conn_state
            == ConnState::Connected) by {
            if k == id {
            } else {
            }
        }
        assert forall|x: int|
            0 <= x < rt.peer_list@.len() && (#[trigger] rt.peer_list@[x]).1.conn_state
                == ConnState::Connected implies rt.peer_list@[x].1.conn_addr is Some by {
            if x < a.peer_list@.len() {
                assert(a.peer_list@[x].1.conn_state == ConnState::Connected);
            }
        }
        lemma_tcp_wf_same_members(a, *rt);
        assert(tcp_view(rt) =~= tcp_view(&a).after_insert(id, listening_addr));
    }
    true
}

/// Returns whether the bucket of `id` has space, and its index if it does, making the bucket.
fn tcp_can_connect(rt: &mut RoutingTable<PeerAddr, TcpMeta>, id: Id) -> (res: (bool, Option<u32>))
    requires
        tcp_wf(old(rt)),
    ensures
        tcp_wf(final(rt)),
        res == tcp_view(old(rt)).can_connect(id),
        tcp_view(final(rt)) == tcp_view(old(rt)).with_bucket_for(id),
{
    let ghost a = *rt;
    proof {
        lemma_tcp_view_wf(rt);
        rt.lemma_bucket_view();
    }
    let res = rt.can_connect(id);
    proof {
        rt.lemma_bucket_view();
        assert forall|i: u32| #[trigger] rt.bucket(i) == a.bucket(i) by {
            if rt.buckets_view().contains_key(i) && !a.buckets_view().contains_key(i) {
                assert(a.bucket(i) =~= Set::<Id>::empty());
            }
        }
        lemma_tcp_wf_same_members(a, *rt);
        assert(tcp_view(rt) =~= tcp_view(&a).with_bucket_for(id));
    }
    res
}

/// Sets `id` as connected through `conn_addr` when its bucket has space.
fn tcp_set_connected(rt: &mut RoutingTable<PeerAddr, TcpMeta>, id: Id, conn_addr: PeerAddr) -> (res:
    bool)
    requires
        tcp_wf(old(rt)),
    ensures
        tcp_wf(final(rt)),
        res == tcp_view(old(rt)).can_connect(id).0,
        exists|t: OffsetDateTime| #[trigger]
            tcp_view(old(rt)).after_set_connected(id, conn_addr, t) == tcp_view(final(rt)),
{
    broadcast use lemma_key_index;

    let ghost v0 = tcp_view(rt);
    proof {
        lemma_tcp_view_wf(rt);
    }
    match tcp_can_connect(rt, id) {
        (true, Some(i)) => {
            let ghost a = *rt;
            proof {
                lemma_tcp_view_wf(rt);
                rt.lemma_bucket_view();
            }
            match rt.find_peer(&id) {
                Some(p) => {
                    rt.bucket_insert(i, id);
                    let ghost b = *rt;
                    let j = find_addr(&rt.id_list, &conn_addr);
                    assoc_put(&mut rt.id_list, j, conn_addr, id);
                    proof {
                        lemma_log2_distance_none(rt.local_id, id);
                        assert forall|x: int| 0 <= x < rt.id_list@.len() implies #[trigger] rt.id_list@[x].1
                            != rt.local_id by {
                            if x < b.id_list@.len() && rt.id_list@[x] == b.id_list@[x] {
                                assert(b.id_list@[x].1 != b.local_id);
                            }
                        }
                        crate::routing_table::lemma_base_wf_ids(b, *rt);
                    }
                    let ghost c = *rt;
                    let meta = rt.peer_list[p].1;
                    let t = now_utc();
                    let new_meta = TcpMeta {
                        conn_addr: Some(conn_addr),
                        conn_state: ConnState::Connected,
                        last_seen: Some(t),
                        ..meta
                    };
                    rt.peer_list.set(p, (id, new_meta));
                    proof {
                        crate::routing_table::lemma_base_wf_peer_update(c, *rt, p as int, new_meta);
                        rt.lemma_bucket_view();
                        b.lemma_bucket_view();
                        assert forall|x: u32, y: Id| #[trigger] rt.bucket(x).contains(y) implies (
                        assoc_get(rt.peer_list@, y) matches Some(m) && m.conn_state
                            == ConnState::Connected) by {
                            if y != id {
                                assert(a.bucket(x).contains(y));
                            }
                        }
                        assert forall|x: int|
                            0 <= x < rt.peer_list@.len() && (#[trigger] rt.peer_list@[x]).1.conn_state
                                == ConnState::Connected implies rt.peer_list@[x].1.conn_addr is Some by {
                            if x != p {
                                assert(a.peer_list@[x] == rt.peer_list@[x]);
                            }
                        }
                        assert(tcp_view(rt) =~= v0.after_set_connected(id, conn_addr, t));
                    }
                },
                None => {
                    proof {
                        let t: OffsetDateTime = vstd::pervasive::arbitrary();
                        assert(tcp_view(rt) == v0.after_set_connected(id, conn_addr, t));
                    }
                },
            }
            true
        },
        _ => {
            proof {
                let t: OffsetDateTime = vstd::pervasive::arbitrary();
                assert(tcp_view(rt) == v0.after_set_connected(id, conn_addr, t));
            }
            false
        },
    }
}

/// Removes the peer connected through `conn_addr` from its bucket and sets it as disconnected.
fn tcp_set_disconnected(rt: &mut RoutingTable<PeerAddr, TcpMeta>, conn_addr: PeerAddr) -> (res: bool)
    requires
        tcp_wf(old(rt)),
    ensures
        tcp_wf(final(rt)),
        res == tcp_view(old(rt)).disconnect_result(conn_addr),
        tcp_view(final(rt)) == tcp_view(old(rt)).after_set_disconnected(conn_addr),
{
    broadcast use lemma_key_index;

    let ghost v0 = tcp_view(rt);
    let ghost a = *rt;
    proof {
        lemma_tcp_view_wf(rt);
        rt.lemma_bucket_view();
    }
    let id = match find_addr(&rt.id_list, &conn_addr) {
        Some(j) => rt.id_list[j].1,
        None => return false,
    };
    proof {
        assert(v0.addrs[conn_addr] == id);
        lemma_log2_distance_none(rt.local_id, id);
        lemma_log2_distance_bound(rt.local_id, id);
    }
    let i = match rt.local_id.log2_distance(&id) {
        Some(i) => i,
        None => return false,
    };
    let p = match rt.find_peer(&id) {
        Some(p) => p,
        None => return false,
    };
    if rt.buckets[i as usize].is_none() {
        return false;
    }
    let meta = rt.peer_list[p].1;
    // A peer without a connection address is not connected: there is nothing to undo.
    let c = match meta.conn_addr {
        Some(c) => c,
        None => return false,
    };
    let bucket_res = rt.bucket_remove(i, id);
    let ghost b = *rt;
    let id_list_res = match find_addr(&rt.id_list, &c) {
        Some(jj) => {
            proof {
                lemma_assoc_remove(rt.id_list@, jj as int);
            }
            rt.id_list.remove(jj);
            true
        },
        None => {
            proof {
                assert(to_map(rt.id_list@) =~= to_map(rt.id_list@).remove(c));
            }
            false
        },
    };
    proof {
        assert forall|x: int| 0 <= x < rt.id_list@.len() implies #[trigger] rt.id_list@[x].1
            != rt.local_id by {
            let x2 = choose|x2: int| 0 <= x2 < b.id_list@.len() && b.id_list@[x2] == rt.id_list@[x];
            assert(b.id_list@[x2].1 != b.local_id);
        }
        crate::routing_table::lemma_base_wf_ids(b, *rt);
    }
    let ghost d = *rt;
    let new_meta = TcpMeta { conn_addr: None, conn_state: ConnState::Disconnected, ..meta };
    rt.peer_list.set(p, (id, new_meta));
    proof {
        crate::routing_table::lemma_base_wf_peer_update(d, *rt, p as int, new_meta);
        rt.lemma_bucket_view();
        b.lemma_bucket_view();
        assert forall|x: u32, y: Id| #[trigger] rt.bucket(x).contains(y) implies (assoc_get(
            rt.peer_list@,
            y,
        ) matches Some(m) && m.conn_state == ConnState::Connected) by {
            assert(a.bucket(x).contains(y));
            a.lemma_bucket_members(x as int);
            if y == id {
                assert(x == i);
            }
        }
        assert forall|x: int|
            0 <= x < rt.peer_list@.len() && (#[trigger] rt.peer_list@[x]).1.conn_state
                == ConnState::Connected implies rt.peer_list@[x].1.conn_addr is Some by {
            assert(a.peer_list@[x] == rt.peer_list@[x]);
        }
        assert(tcp_view(rt) =~= v0.after_set_disconnected(conn_addr));
    }
    bucket_res && id_list_res
}

impl TcpRouter {
    /// The router's invariant, which its constructors establish and its methods keep.
    pub closed spec fn inv(&self) -> bool {
        tcp_wf(&self.rt)
    }

    /// A router that keeps its invariant is in a well-formed state.
    pub proof fn lemma_inv(&self)
        requires
            self.inv(),
        ensures
            self@.wf(),
    {
        lemma_tcp_view_wf(&self.rt);
    }
}

impl View for TcpRouter {
    type V = TcpRouterView;

    closed spec fn view(&self) -> TcpRouterView {
        tcp_view(&self.rt)
    }
}

impl Default for TcpRouter {
    /// A router with a random local identifier, buckets of at most 20 peers and 20 peers shared
    /// per FIND_K_NODES answer.
    fn default() -> (router: Self)
        ensures
            router@.max_bucket_size == 20,
            router@.k == 20,
            router@.buckets == Map::<u32, Set<Id>>::empty(),
            router@.peers == Seq::<(Id, TcpMeta)>::empty(),
            router@.addrs == Map::<PeerAddr, Id>::empty(),
            router.inv(),
    {
        let bytes = random_id_bytes();
        TcpRouter::new(Id::new(bytes), 20, 20)
    }
}

impl TcpRouter {
    /// Creates a new router.
    pub fn new(local_id: Id, max_bucket_size: u8, k: u8) -> (router: Self)
        ensures
            router@ == (TcpRouterView {
                local_id,
                max_bucket_size,
                k,
                buckets: Map::empty(),
                peers: Seq::empty(),
                addrs: Map::empty(),
            }),
            router.inv(),
    {
        let rt = RoutingTable::new(local_id, max_bucket_size, k);
        proof {
            rt.lemma_bucket_view();
            assert(to_map(rt.id_list@) =~= Map::<PeerAddr, Id>::empty());
            lemma_tcp_view_wf(&rt);
        }
        TcpRouter { rt }
    }

    /// Returns this router's local identifier.
    pub fn local_id(&self) -> (id: Id)
        ensures
            id == self@.local_id,
    {
        self.rt.local_id
    }

    /// Returns the maximum number of identifiers a bucket can hold.
    pub fn max_bucket_size(&self) -> (max_bucket_size: u8)
        ensures
            max_bucket_size == self@.max_bucket_size,
    {
        self.rt.max_bucket_size
    }

    /// Returns the number of peers shared in answer to a FIND_K_NODES query.
    pub fn k(&self) -> (k: u8)
        ensures
            k == self@.k,
    {
        self.rt.k
    }

    /// Returns the identifier corresponding to the address, if it exists.
    pub fn peer_id(&self, addr: PeerAddr) -> (id: Option<Id>)
        ensures
            id == self@.peer_id(addr),
    {
        broadcast use lemma_key_index;

        match find_addr(&self.rt.id_list, &addr) {
            Some(j) => Some(self.rt.id_list[j].1),
            None => None,
        }
    }

    /// Returns the peer's metadata if it exists.
    pub fn peer_meta(&self, id: &Id) -> (meta: Option<&TcpMeta>)
        ensures
            match meta {
                Some(m) => self@.peer(*id) == Some(*m),
                None => self@.peer(*id) is None,
            },
    {
        broadcast use lemma_key_index;

        match self.rt.find_peer(id) {
            Some(p) => Some(&self.rt.peer_list[p].1),
            None => None,
        }
    }

    /// Returns `true` if the record exists already or was inserted, `false` if an attempt was
    /// made to insert our local identifier.
    ///
    /// All peers are inserted as disconnected; a peer that is known already keeps its connection
    /// state and gets the new listening address.
    pub fn insert(&mut self, id: Id, listening_addr: PeerAddr) -> (inserted: bool)
        requires
            old(self).inv(),
        ensures
            inserted == (id != old(self)@.local_id),
            final(self)@ == old(self)@.after_insert(id, listening_addr),
            final(self).inv(),
    {
        let res = tcp_insert(&mut self.rt, id, listening_addr);
        res
    }

    /// Returns whether or not there is space in the bucket corresponding to the identifier and
    /// the appropriate bucket index if there is.
    pub fn can_connect(&mut self, id: Id) -> (res: (bool, Option<u32>))
        requires
            old(self).inv(),
        ensures
            res == old(self)@.can_connect(id),
            final(self)@ == old(self)@.with_bucket_for(id),
            final(self).inv(),
    {
        let res = tcp_can_connect(&mut self.rt, id);
        res
    }

    /// Sets the peer as connected on the router, returning `false` if there is no room to
    /// connect the peer.
    pub fn set_connected(&mut self, id: Id, conn_addr: PeerAddr) -> (connected: bool)
        requires
            old(self).inv(),
        ensures
            connected == old(self)@.can_connect(id).0,
            exists|t: OffsetDateTime| #[trigger]
                old(self)@.after_set_connected(id, conn_addr, t) == final(self)@,
            final(self).inv(),
    {
        let ghost before = self@;
        let res = tcp_set_connected(&mut self.rt, id, conn_addr);
        proof {
            let t = choose|t: OffsetDateTime| #[trigger]
                tcp_view(&old(self).rt).after_set_connected(id, conn_addr, t) == self@;
            assert(before.after_set_connected(id, conn_addr, t) == self@);
        }
        res
    }

    /// Removes an identifier from the buckets, sets the peer to disconnected and returns `true`
    /// on success, `false` otherwise.
    pub fn set_disconnected(&mut self, conn_addr: PeerAddr) -> (disconnected: bool)
        requires
            old(self).inv(),
        ensures
            disconnected == old(self)@.disconnect_result(conn_addr),
            final(self)@ == old(self)@.after_set_disconnected(conn_addr),
            final(self).inv(),
    {
        let res = tcp_set_disconnected(&mut self.rt, conn_addr);
        res
    }

    /// Returns `true` if the address is connected, `false` if it isn't.
    pub fn is_connected(&self, addr: PeerAddr) -> (connected: bool)
        ensures
            connected == self@.is_connected(addr),
    {
        if let Some(id) = self.peer_id(addr) {
            if let Some(peer_meta) = self.peer_meta(&id) {
                return matches!(peer_meta.conn_state, ConnState::Connected);
            }
        }
        false
    }
}

impl TcpRouter {
    /// Returns the list disconnected addresses.
    pub fn disconnected_addrs(&self) -> (addrs: Vec<PeerAddr>)
        ensures
            addrs@ == disconnected_listening_addrs(self@.peers),
    {
        let n = self.rt.peer_list.len();
        let mut addrs: Vec<PeerAddr> = Vec::new();
        let mut i: usize = 0;
        while i < n
            invariant
                n == self.rt.peer_list@.len(),
                i <= n,
                addrs@ == disconnected_listening_addrs(self.rt.peer_list@.take(i as int)),
            decreases n - i,
        {
            let meta = self.rt.peer_list[i].1;
            proof {
                assert(self.rt.peer_list@.take(i + 1).drop_last() =~= self.rt.peer_list@.take(
                    i as int,
                ));
            }
            if matches!(meta.conn_state, ConnState::Disconnected) {
                addrs.push(meta.listening_addr);
            }
            i = i + 1;
        }
        proof {
            assert(self.rt.peer_list@.take(n as int) =~= self.rt.peer_list@);
        }
        addrs
    }

    /// Returns the list connected addresses.
    pub fn connected_addrs(&self) -> (addrs: Vec<PeerAddr>)
        requires
            self.inv(),
        ensures
            addrs@ == connected_conn_addrs(self@.peers),
    {
        let n = self.rt.peer_list.len();
        let mut addrs: Vec<PeerAddr> = Vec::new();
        let mut i: usize = 0;
        while i < n
            invariant
                n == self.rt.peer_list@.len(),
                tcp_wf(&self.rt),
                i <= n,
                addrs@ == connected_conn_addrs(self.rt.peer_list@.take(i as int)),
            decreases n - i,
        {
            let meta = self.rt.peer_list[i].1;
            proof {
                assert(self.rt.peer_list@.take(i + 1).drop_last() =~= self.rt.peer_list@.take(
                    i as int,
                ));
            }
            if matches!(meta.conn_state, ConnState::Connected) {
                match meta.conn_addr {
                    Some(addr) => addrs.push(addr),
                    None => {},
                }
            }
            i = i + 1;
        }
        proof {
            assert(self.rt.peer_list@.take(n as int) =~= self.rt.peer_list@);
        }
        addrs
    }

    /// Selects the broadcast peers for a particular height, returns `None` if the broadcast
    /// shouldn't continue any further: one peer at random in each non-empty bucket below the
    /// height, with its connection address.
    pub fn select_broadcast_peers(&self, height: u32) -> (peers: Option<Vec<(u32, PeerAddr)>>)
        requires
            self.inv(),
        ensures
            height == 0 ==> peers is None,
            height != 0 ==> (peers matches Some(sel) && self@.is_broadcast_selection(height, sel@)),
    {
        broadcast use lemma_key_index;

        // Don't broadcast any further.
        if height == 0 {
            return None;
        }
        proof {
            lemma_tcp_view_wf(&self.rt);
        }
        let ghost v = self@;
        let bound: u32 = if height < 256 {
            height
        } else {
            256
        };
        let mut selected: Vec<(u32, PeerAddr)> = Vec::new();
        let mut h: u32 = 0;
        while h < bound
            invariant
                tcp_wf(&self.rt),
                v == self@,
                v.wf(),
                forall|i: u32| #[trigger] v.bucket(i) == self.rt.bucket(i),
                h <= bound,
                bound <= 256,
                selected@.len() == v.nonempty_buckets_below(h as nat).len(),
                forall|j: int|
                    0 <= j < selected@.len() ==> (#[trigger] selected@[j]).0
                        == v.nonempty_buckets_below(h as nat)[j] && v.conn_addr_in_bucket(
                        selected@[j].0,
                        selected@[j].1,
                    ),
            decreases bound - h,
        {
            // Choose one peer at random per bucket.
            if let Some(id) = self.rt.bucket_choose(h) {
                proof {
                    lemma_key_index(self.rt.peer_list@, id);
                }
                if let Some(p) = self.rt.find_peer(&id) {
                    // Return the connection address, not the listening address as we need to
                    // broadcast through the connection, not to the listener.
                    if let Some(addr) = self.rt.peer_list[p].1.conn_addr {
                        proof {
                            assert(v.bucket(h).contains(id));
                            assert(v.peer(id) == Some(self.rt.peer_list@[p as int].1));
                        }
                        selected.push((h, addr));
                    } else {
                        proof {
                            assert(v.bucket(h).contains(id));
                        }
                    }
                } else {
                    proof {
                        assert(v.bucket(h).contains(id));
                    }
                }
            }
            proof {
                assert forall|j: int| 0 <= j < selected@.len() implies (#[trigger] selected@[j]).0
                    == v.nonempty_buckets_below((h + 1) as nat)[j] && v.conn_addr_in_bucket(
                    selected@[j].0,
                    selected@[j].1,
                ) by {}
            }
            h = h + 1;
        }
        proof {
            lemma_nonempty_buckets_cap(v, height as nat);
        }
        Some(selected)
    }

    /// Returns the K closest nodes to the identifier, in order of increasing distance.
    pub fn find_k_closest(&self, id: &Id, k: usize) -> (closest: Vec<(Id, PeerAddr)>)
        ensures
            is_closest_selection(self@.listening_entries(), self@.distances_to(*id), k as nat, closest@),
    {
        let n = self.rt.peer_list.len();
        let mut cands: Vec<(Id, PeerAddr)> = Vec::new();
        let mut dists: Vec<Option<u32>> = Vec::new();
        let mut i: usize = 0;
        while i < n
            invariant
                n == self.rt.peer_list@.len(),
                i <= n,
                cands@ =~= self@.listening_entries().take(i as int),
                dists@ =~= self@.distances_to(*id).take(i as int),
            decreases n - i,
        {
            let entry = &self.rt.peer_list[i];
            cands.push((entry.0, entry.1.listening_addr));
            dists.push(entry.0.log2_distance(id));
            i = i + 1;
        }
        proof {
            assert(cands@ =~= self@.listening_entries());
            assert(dists@ =~= self@.distances_to(*id));
        }
        select_closest(&cands, &dists, k)
    }

    /// Selects `alpha` peers closest to the local identifier, each with the address to reach it
    /// by and whether it is connected, in order of increasing distance.
    pub fn select_search_peers(&self, alpha: usize) -> (peers: Vec<(Id, PeerAddr, bool)>)
        requires
            self.inv(),
        ensures
            is_closest_selection(
                self@.search_entries(),
                self@.distances_to(self@.local_id),
                alpha as nat,
                peers@,
            ),
    {
        let n = self.rt.peer_list.len();
        let local_id = self.rt.local_id;
        let mut cands: Vec<(Id, PeerAddr, bool)> = Vec::new();
        let mut dists: Vec<Option<u32>> = Vec::new();
        let mut i: usize = 0;
        while i < n
            invariant
                n == self.rt.peer_list@.len(),
                tcp_wf(&self.rt),
                local_id == self@.local_id,
                i <= n,
                cands@ =~= self@.search_entries().take(i as int),
                dists@ =~= self@.distances_to(local_id).take(i as int),
            decreases n - i,
        {
            let entry = &self.rt.peer_list[i];
            let cand = match (entry.1.conn_state, entry.1.conn_addr) {
                (ConnState::Connected, Some(addr)) => (entry.0, addr, true),
                _ => (entry.0, entry.1.listening_addr, false),
            };
            cands.push(cand);
            dists.push(entry.0.log2_distance(&local_id));
            i = i + 1;
        }
        proof {
            assert(cands@ =~= self@.search_entries());
            assert(dists@ =~= self@.distances_to(local_id));
        }
        select_closest(&cands, &dists, alpha)
    }
}

/// Records that peer `id` was seen now, returning the time.
fn tcp_touch(rt: &mut RoutingTable<PeerAddr, TcpMeta>, id: Id) -> (t: OffsetDateTime)
    requires
        tcp_wf(old(rt)),
    ensures
        tcp_wf(final(rt)),
        tcp_view(final(rt)) == tcp_view(old(rt)).touched(id, t),
{
    broadcast use lemma_key_index;

    let t = now_utc();
    let ghost a = *rt;
    if let Some(p) = rt.find_peer(&id) {
        let meta = rt.peer_list[p].1;
        let new_meta = TcpMeta { last_seen: Some(t), ..meta };
        rt.peer_list.set(p, (id, new_meta));
        proof {
            crate::routing_table::lemma_base_wf_peer_update(a, *rt, p as int, new_meta);
            assert forall|x: int|
                0 <= x < rt.peer_list@.len() && (#[trigger] rt.peer_list@[x]).1.conn_state
                    == ConnState::Connected implies rt.peer_list@[x].1.conn_addr is Some by {
                assert(a.peer_list@[x].1.conn_state == ConnState::Connected);
            }
            assert forall|k: Id| #[trigger]
                assoc_get(a.peer_list@, k) matches Some(m) && m.conn_state == ConnState::Connected
                    implies (assoc_get(rt.peer_list@, k) matches Some(m2) && m2.conn_state
                == ConnState::Connected) by {}
            lemma_tcp_wf_same_members(a, *rt);
            assert(tcp_view(rt) =~= tcp_view(&a).touched(id, t));
        }
    }
    t
}

/// The CHUNK message for each selected peer.
fn chunks_for(peers: &Vec<(u32, PeerAddr)>, nonce: Nonce, data: &Bytes) -> (chunks: Vec<
    (PeerAddr, Chunk),
>)
    ensures
        chunks@.len() == peers@.len(),
        forall|j: int|
            0 <= j < peers@.len() ==> #[trigger] chunks@[j] == (
            peers@[j].1,
            Chunk { nonce, height: peers@[j].0, data: *data },
            ),
{
    let mut chunks: Vec<(PeerAddr, Chunk)> = Vec::new();
    let mut i: usize = 0;
    while i < peers.len()
        invariant
            i <= peers@.len(),
            chunks@.len() == i,
            forall|j: int|
                0 <= j < i ==> #[trigger] chunks@[j] == (
                peers@[j].1,
                Chunk { nonce, height: peers@[j].0, data: *data },
                ),
        decreases peers@.len() - i,
    {
        let (height, addr) = peers[i];
        chunks.push((addr, Chunk { nonce, height, data: data.clone() }));
        i = i + 1;
    }
    chunks
}

impl TcpRouter {
    // MESSAGE PROCESSING

    /// Processes a peer's message. If it is a query, an appropriate response is returned to
    /// be sent.
    ///
    /// The sender is looked up by the connection address; an unknown sender's message is
    /// ignored. Otherwise the sender's last-seen time is updated first, then: a PING is answered
    /// with a PONG carrying the same nonce and the local identifier; a FIND_K_NODES with a
    /// K_NODES carrying the same nonce and the K known peers closest to the identifier asked
    /// for; the peers of a K_NODES are inserted; a CHUNK whose data converts to `T` and passes
    /// `T::verify_data` is processed and passed on to one peer of each bucket below its height.
    pub fn process_message<S: Clone, T: ProcessData<S>>(
        &mut self,
        state: S,
        message: Message,
        conn_addr: PeerAddr,
    ) -> (response: Option<Response>)
        requires
            old(self).inv(),
        ensures
            final(self).inv(),
            match old(self)@.peer_id(conn_addr) {
                None => final(self)@ == old(self)@ && response is None,
                Some(id) => exists|t: OffsetDateTime| #[trigger]
                    old(self)@.touched(id, t).message_outcome(message, final(self)@, response)
                        && (final(self)@.peer(id) matches Some(meta) && meta.last_seen == Some(t)),
            },
    {
        proof {
            self.lemma_inv();
        }
        let id = match self.peer_id(conn_addr) {
            Some(id) => id,
            None => return None,
        };
        // Update the peer's last seen timestamp.
        let t = tcp_touch(&mut self.rt, id);
        let ghost mid = self@;
        let ghost msg = message;
        let response = match message {
            Message::Init(_init) => None,
            Message::Ping(ping) => {
                let pong = self.process_ping(ping);
                Some(Response::Unicast(Message::Pong(pong)))
            },
            Message::Pong(pong) => {
                self.process_pong(pong);
                None
            },
            Message::FindKNodes(find_k_nodes) => {
                let k_nodes = self.process_find_k_nodes(find_k_nodes);
                Some(Response::Unicast(Message::KNodes(k_nodes)))
            },
            Message::KNodes(k_nodes) => {
                self.process_k_nodes(k_nodes);
                None
            },
            Message::Chunk(chunk) => {
                let ghost c = chunk;
                if let Some(broadcast) = self.process_chunk::<S, T>(state, chunk) {
                    let mut messages: Vec<(PeerAddr, Message)> = Vec::new();
                    let mut i: usize = 0;
                    while i < broadcast.len()
                        invariant
                            i <= broadcast@.len(),
                            messages@.len() == i,
                            forall|j: int|
                                0 <= j < i ==> #[trigger] messages@[j] == (
                                broadcast@[j].0,
                                Message::Chunk(broadcast@[j].1),
                                ),
                        decreases broadcast@.len() - i,
                    {
                        let entry = &broadcast[i];
                        let chunk = Chunk {
                            nonce: entry.1.nonce,
                            height: entry.1.height,
                            data: entry.1.data.clone(),
                        };
                        messages.push((entry.0, Message::Chunk(chunk)));
                        i = i + 1;
                    }
                    proof {
                        let sel = choose|sel: Seq<(u32, PeerAddr)>| #[trigger]
                            mid.is_broadcast_selection(c.height, sel) && broadcast@ == chunk_copies(
                                sel,
                                c.nonce,
                                c.data,
                            );
                        assert(messages@ =~= chunk_messages(sel, c.nonce, c.data));
                    }
                    Some(Response::Broadcast(messages))
                } else {
                    None
                }
            },
        };
        proof {
            assert(mid == old(self)@.touched(id, t));
            assert(mid.message_outcome(message, self@, response));
            lemma_sender_seen(old(self)@, id, t);
            if let Message::KNodes(k_nodes) = msg {
                lemma_after_insert_all_keeps_seen(mid, k_nodes.nodes@);
            }
            assert(self@.peer(id) matches Some(meta) && meta.last_seen == Some(t));
        }
        response
    }

    fn process_ping(&mut self, ping: Ping) -> (pong: Pong)
        ensures
            *final(self) == *old(self),
            pong == (Pong { nonce: ping.nonce, id: old(self)@.local_id }),
    {
        // Prepare a response, send back the same nonce so the sender of the PING can identify the
        // request the response corresponds to.
        Pong { nonce: ping.nonce, id: self.local_id() }
    }

    fn process_pong(&mut self, _pong: Pong)
        ensures
            *final(self) == *old(self),
    {
    }

    fn process_find_k_nodes(&self, find_k_nodes: FindKNodes) -> (k_nodes: KNodes)
        ensures
            k_nodes.nonce == find_k_nodes.nonce,
            is_closest_selection(
                self@.listening_entries(),
                self@.distances_to(find_k_nodes.id),
                self@.k as nat,
                k_nodes.nodes@,
            ),
    {
        let k_closest_nodes = self.find_k_closest(&find_k_nodes.id, self.rt.k as usize);
        KNodes { nonce: find_k_nodes.nonce, nodes: k_closest_nodes }
    }

    fn process_k_nodes(&mut self, k_nodes: KNodes)
        requires
            old(self).inv(),
        ensures
            final(self).inv(),
            final(self)@ == old(self)@.after_insert_all(k_nodes.nodes@),
    {
        // Save the new peer information.
        let ghost start = self@;
        let nodes = k_nodes.nodes;
        let mut i: usize = 0;
        while i < nodes.len()
            invariant
                self.inv(),
                i <= nodes@.len(),
                self@ == start.after_insert_all(nodes@.take(i as int)),
            decreases nodes@.len() - i,
        {
            let (id, listening_addr) = nodes[i];
            proof {
                assert(nodes@.take(i + 1).drop_last() =~= nodes@.take(i as int));
            }
            self.insert(id, listening_addr);
            i = i + 1;
        }
        proof {
            assert(nodes@.take(nodes@.len() as int) =~= nodes@);
        }
    }

    fn process_chunk<S: Clone, T: ProcessData<S>>(&self, state: S, chunk: Chunk) -> (broadcast:
        Option<Vec<(PeerAddr, Chunk)>>)
        requires
            self.inv(),
        ensures
            chunk.height == 0 ==> broadcast is None,
            <T as TryFromSpec<Bytes>>::obeys_try_from_spec() && <T as TryFromSpec<
                Bytes,
            >>::try_from_spec(chunk.data) is Err ==> broadcast is None,
            broadcast matches Some(b) ==> exists|sel: Seq<(u32, PeerAddr)>| #[trigger]
                self@.is_broadcast_selection(chunk.height, sel) && b@ == chunk_copies(
                    sel,
                    chunk.nonce,
                    chunk.data,
                ),
    {
        // Cheap as the backing storage is shared amongst instances.
        let data = chunk.data.clone();
        let data_as_t: T = match T::try_from(data) {
            Ok(data) => data,
            Err(_) => return None,
        };
        let is_kosher = data_as_t.verify_data(state.clone());
        if is_kosher {
            data_as_t.process_data(state);
        }
        // This is where the buckets come in handy. When a node processes a chunk message, it
        // selects peers in buckets ]h, 0] and propagates the CHUNK message. If h = 0, no
        // propagation occurs.
        self.broadcast_chunk(&chunk, is_kosher)
    }

    /// Returns the copies of `chunk` to pass on, given whether its data was found valid: none
    /// when it was not, or when its height is 0; otherwise one copy for a peer picked in each
    /// non-empty bucket below its height, sent to the peer's connection address, with the
    /// bucket's index as height.
    pub fn broadcast_chunk(&self, chunk: &Chunk, is_valid: bool) -> (broadcast: Option<
        Vec<(PeerAddr, Chunk)>,
    >)
        requires
            self.inv(),
        ensures
            !is_valid || chunk.height == 0 ==> broadcast is None,
            is_valid && chunk.height != 0 ==> (broadcast matches Some(b) && exists|
                sel: Seq<(u32, PeerAddr)>,
            | #[trigger]
                self@.is_broadcast_selection(chunk.height, sel) && b@ == chunk_copies(
                    sel,
                    chunk.nonce,
                    chunk.data,
                )),
    {
        if !is_valid {
            return None;
        }
        match self.select_broadcast_peers(chunk.height) {
            Some(peers) => {
                let chunks = chunks_for(&peers, chunk.nonce, &chunk.data);
                proof {
                    assert(chunks@ =~= chunk_copies(peers@, chunk.nonce, chunk.data));
                }
                Some(chunks)
            },
            None => None,
        }
    }
}

/// Above bucket 256 there are no buckets, so the non-empty buckets below `n` are those below 256.
proof fn lemma_nonempty_buckets_cap(v: TcpRouterView, n: nat)
    requires
        v.wf(),
        n <= u32::MAX,
    ensures
        v.nonempty_buckets_below(n) == v.nonempty_buckets_below(if n < 256 { n } else { 256 }),
    decreases n,
{
    if n > 256 {
        assert(!v.buckets.contains_key((n - 1) as u32));
        assert(v.bucket((n - 1) as u32) =~= Set::<Id>::empty());
        lemma_nonempty_buckets_cap(v, (n - 1) as nat);
    }
}

/// Returns the index of the entry for `addr`, if there is one.
fn find_addr<V>(s: &Vec<(PeerAddr, V)>, addr: &PeerAddr) -> (found: Option<usize>)
    ensures
        match found {
            Some(i) => i == key_index(s@, *addr),
            None => key_index(s@, *addr) == -1,
        },
{
    broadcast use lemma_key_index;

    let mut i = s.len();
    while i > 0
        invariant
            i <= s@.len(),
            forall|j: int| i <= j < s@.len() ==> s@[j].0 != *addr,
        decreases i,
    {
        i = i - 1;
        if s[i].0 == *addr {
            proof {
                crate::assoc::lemma_key_index_at(s@, *addr, i as int);
            }
            return Some(i);
        }
    }
    None
}

} // verus!
