//! Core router implementation for QUIC, where peers are reached through connection identifiers.
//! It is a work in progress: it tracks peers and buckets, but does not disconnect peers, select
//! broadcast peers or process messages yet.

use time::OffsetDateTime;
use vstd::prelude::*;

use crate::addr::PeerAddr;
use crate::assoc::{assoc_get, assoc_put, key_index, lemma_key_index, to_map};
use crate::id::{lemma_log2_distance_none, log2_distance_spec, Id};
use crate::outside::now_utc;
use crate::routing_table::RoutingTable;

verus! {

/// A connection identifier.
pub type ConnId = usize;

/// Whether a peer is connected.
#[derive(Debug, Clone, Copy, PartialEq, Eq, Structural)]
pub enum ConnState {
    Connected,
    Disconnected,
}

/// The state of the streams to a peer.
#[derive(Debug, Copy, Clone, PartialEq, Eq, Structural)]
pub enum StreamState {
    Closed,
    Uni,
    Bi,
}

/// What the router knows of a peer.
#[derive(Debug, Copy, Clone, PartialEq, Eq)]
pub struct QuicMeta {
    /// The peer's address.
    pub addr: PeerAddr,
    /// The identifier of the connection to the peer, while it is connected.
    pub conn_id: Option<ConnId>,
    /// Whether the peer is connected.
    pub conn_state: ConnState,
    /// The state of the streams to the peer.
    pub stream_state: StreamState,
    /// When a message of the peer was last seen.
    pub last_seen: Option<OffsetDateTime>,
}

/// The meta data of a peer that was just inserted.
pub open spec fn fresh_quic_meta(addr: PeerAddr) -> QuicMeta {
    QuicMeta {
        addr,
        conn_id: None,
        conn_state: ConnState::Disconnected,
        stream_state: StreamState::Closed,
        last_seen: None,
    }
}

/// The state of a QUIC router.
pub struct QuicRouterView {
    /// The node's local identifier.
    pub local_id: Id,
    /// The maximum number of identifiers in a bucket.
    pub max_bucket_size: u8,
    /// The number of peers shared in answer to a FIND_K_NODES query.
    pub k: u8,
    /// The buckets that exist: bucket `i` holds the connected identifiers at log2 distance `i`.
    pub buckets: Map<u32, Set<Id>>,
    /// The known peers with their meta data, in the order in which they became known.
    pub peers: Seq<(Id, QuicMeta)>,
    /// The identifier that each connection belongs to.
    pub conns: Map<ConnId, Id>,
}

impl QuicRouterView {
    /// The meta data of peer `id`, if it is known.
    pub open spec fn peer(self, id: Id) -> Option<QuicMeta> {
        assoc_get(self.peers, id)
    }

    /// Bucket `i`; empty when it does not exist.
    pub open spec fn bucket(self, i: u32) -> Set<Id> {
        if self.buckets.contains_key(i) {
            self.buckets[i]
        } else {
            Set::empty()
        }
    }

    /// What `can_connect` answers for `id`.
    pub open spec fn can_connect(self, id: Id) -> (bool, Option<u32>) {
        match log2_distance_spec(self.local_id, id) {
            None => (false, None),
            Some(i) => if self.bucket(i).len() < self.max_bucket_size {
                (true, Some(i))
            } else {
                (false, None)
            },
        }
    }

    /// The state after the bucket of `id` was made, if it did not exist yet.
    pub open spec fn with_bucket_for(self, id: Id) -> Self {
        match log2_distance_spec(self.local_id, id) {
            None => self,
            Some(i) => QuicRouterView { buckets: self.buckets.insert(i, self.bucket(i)), ..self },
        }
    }

    /// The state after `insert(id, addr)`: a known peer gets the new address only while it is
    /// disconnected, an unknown one is added as disconnected with closed streams; the local
    /// identifier is not inserted.
    pub open spec fn after_insert(self, id: Id, addr: PeerAddr) -> Self {
        let i = key_index(self.peers, id);
        if id == self.local_id {
            self
        } else if i >= 0 {
            if self.peers[i].1.conn_state == ConnState::Disconnected {
                QuicRouterView {
                    peers: self.peers.update(i, (id, QuicMeta { addr, ..self.peers[i].1 })),
                    ..self
                }
            } else {
                self
            }
        } else {
            QuicRouterView { peers: self.peers.push((id, fresh_quic_meta(addr))), ..self }
        }
    }

    /// The state after `set_connected(id, conn_id, _)`, with `t` as the time it was seen.
    pub open spec fn after_set_connected(self, id: Id, conn_id: ConnId, t: OffsetDateTime) -> Self {
        let made = self.with_bucket_for(id);
        let i = key_index(self.peers, id);
        if self.can_connect(id).0 && i >= 0 {
            let b = log2_distance_spec(self.local_id, id)->Some_0;
            QuicRouterView {
                buckets: made.buckets.insert(b, self.bucket(b).insert(id)),
                conns: self.conns.insert(conn_id, id),
                peers: self.peers.update(
                    i,
                    (
                        id,
                        QuicMeta {
                            conn_id: Some(conn_id),
                            conn_state: ConnState::Connected,
                            last_seen: Some(t),
                            ..self.peers[i].1
                        },
                    ),
                ),
                ..made
            }
        } else {
            made
        }
    }
}

/// The core router implementation.
pub struct QuicRouter {
    /// The routing table backing this router.
    rt: RoutingTable<ConnId, QuicMeta>,
}

/// The state that a QUIC routing table stands for.
pub(crate) open spec fn quic_view(rt: &RoutingTable<ConnId, QuicMeta>) -> QuicRouterView {
    QuicRouterView {
        local_id: rt.local_id,
        max_bucket_size: rt.max_bucket_size,
        k: rt.k,
        buckets: rt.buckets_view(),
        peers: rt.peer_list@,
        conns: to_map(rt.id_list@),
    }
}

impl View for QuicRouter {
    type V = QuicRouterView;

    closed spec fn view(&self) -> QuicRouterView {
        quic_view(&self.rt)
    }
}

/// Returns the index of the entry for connection `conn_id`, if there is one.
fn find_conn(s: &Vec<(ConnId, Id)>, conn_id: ConnId) -> (found: Option<usize>)
    ensures
        match found {
            Some(i) => i == key_index(s@, conn_id),
            None => key_index(s@, conn_id) == -1,
        },
{
    broadcast use lemma_key_index;

    let mut i = s.len();
    while i > 0
        invariant
            i <= s@.len(),
            forall|j: int| i <= j < s@.len() ==> s@[j].0 != conn_id,
        decreases i,
    {
        i = i - 1;
        if s[i].0 == conn_id {
            proof {
                crate::assoc::lemma_key_index_at(s@, conn_id, i as int);
            }
            return Some(i);
        }
    }
    None
}

impl QuicRouter {
    /// The router's invariant, which its constructor establishes and its methods keep.
    pub closed spec fn inv(&self) -> bool {
        self.rt.base_wf()
    }

    /// Creates a new router.
    pub fn new(local_id: Id, max_bucket_size: u8, k: u8) -> (router: Self)
        ensures
            router@ == (QuicRouterView {
                local_id,
                max_bucket_size,
                k,
                buckets: Map::empty(),
                peers: Seq::empty(),
                conns: Map::empty(),
            }),
            router.inv(),
    {
        let rt = RoutingTable::new(local_id, max_bucket_size, k);
        proof {
            assert(to_map(rt.id_list@) =~= Map::<ConnId, Id>::empty());
        }
        QuicRouter { rt }
    }

    /// Returns this router's local identifier.
    pub fn local_id(&self) -> (id: Id)
        ensures
            id == self@.local_id,
    {
        self.rt.local_id
    }

    /// Returns a copy of the peer's metadata if it exists.
    pub fn peer_meta(&self, id: &Id) -> (meta: Option<QuicMeta>)
        ensures
            meta == self@.peer(*id),
    {
        broadcast use lemma_key_index;

        match self.rt.find_peer(id) {
            Some(p) => Some(self.rt.peer_list[p].1),
            None => None,
        }
    }

    /// Returns `true` if the record exists already or was inserted, `false` if an attempt was
    /// made to insert our local identifier. The address of a known peer is only replaced while
    /// the peer is disconnected.
    pub fn insert(&mut self, id: Id, addr: PeerAddr) -> (inserted: bool)
        requires
            old(self).inv(),
        ensures
            final(self).inv(),
            inserted == (id != old(self)@.local_id),
            final(self)@ == old(self)@.after_insert(id, addr),
    {
        broadcast use lemma_key_index;

        if id == self.rt.local_id {
            return false;
        }
        let ghost a = self.rt;
        match self.rt.find_peer(&id) {
            Some(p) => {
                let meta = self.rt.peer_list[p].1;
                // Only modify the address if we are not currently connected to this peer,
                // hopefully this is sufficient to guard against malicious peer lists.
                if matches!(meta.conn_state, ConnState::Disconnected) {
                    let new_meta = QuicMeta { addr, ..meta };
                    self.rt.peer_list.set(p, (id, new_meta));
                    proof {
                        crate::routing_table::lemma_base_wf_peer_update(
                            a,
                            self.rt,
                            p as int,
                            new_meta,
                        );
                    }
                }
            },
            None => {
                self.rt.peer_list.push(
                    (
                        id,
                        QuicMeta {
                            addr,
                            conn_id: None,
                            conn_state: ConnState::Disconnected,
                            stream_state: StreamState::Closed,
                            last_seen: None,
                        },
                    ),
                );
                proof {
                    crate::routing_table::lemma_base_wf_peer_push(
                        a,
                        self.rt,
                        id,
                        fresh_quic_meta(addr),
                    );
                }
            },
        }
        proof {
            assert(self@ =~= quic_view(&a).after_insert(id, addr));
        }
        true
    }

    /// Returns whether or not there is space in the bucket corresponding to the identifier and
    /// the appropriate bucket index if there is.
    pub fn can_connect(&mut self, id: Id) -> (res: (bool, Option<u32>))
        requires
            old(self).inv(),
        ensures
            final(self).inv(),
            res == old(self)@.can_connect(id),
            final(self)@ == old(self)@.with_bucket_for(id),
    {
        proof {
            self.rt.lemma_bucket_view();
        }
        let ghost a = self.rt;
        let res = self.rt.can_connect(id);
        proof {
            assert(self@ =~= quic_view(&a).with_bucket_for(id));
        }
        res
    }

    /// Sets the peer as connected through connection `conn_id`, returning `false` if there is
    /// no room to connect the peer. The stream state is not recorded.
    pub fn set_connected(&mut self, id: Id, conn_id: ConnId, stream_state: StreamState) -> (connected:
        bool)
        requires
            old(self).inv(),
        ensures
            final(self).inv(),
            connected == old(self)@.can_connect(id).0,
            exists|t: OffsetDateTime| #[trigger]
                old(self)@.after_set_connected(id, conn_id, t) == final(self)@,
    {
        broadcast use lemma_key_index;

        let ghost v0 = self@;
        match self.can_connect(id) {
            (true, Some(i)) => {
                proof {
                    self.rt.lemma_bucket_view();
                }
                match self.rt.find_peer(&id) {
                    Some(p) => {
                        self.rt.bucket_insert(i, id);
                        let ghost b = self.rt;
                        let j = find_conn(&self.rt.id_list, conn_id);
                        assoc_put(&mut self.rt.id_list, j, conn_id, id);
                        proof {
                            lemma_log2_distance_none(self.rt.local_id, id);
                            assert forall|x: int| 0 <= x < self.rt.id_list@.len() implies #[trigger] self.rt.id_list@[x].1
                                != self.rt.local_id by {
                                if x < b.id_list@.len() && self.rt.id_list@[x] == b.id_list@[x] {
                                    assert(b.id_list@[x].1 != b.local_id);
                                }
                            }
                            crate::routing_table::lemma_base_wf_ids(b, self.rt);
                        }
                        let ghost c = self.rt;
                        let meta = self.rt.peer_list[p].1;
                        let t = now_utc();
                        let new_meta = QuicMeta {
                            conn_id: Some(conn_id),
                            conn_state: ConnState::Connected,
                            last_seen: Some(t),
                            ..meta
                        };
                        self.rt.peer_list.set(p, (id, new_meta));
                        proof {
                            crate::routing_table::lemma_base_wf_peer_update(
                                c,
                                self.rt,
                                p as int,
                                new_meta,
                            );
                            b.lemma_bucket_view();
                            assert(self@ =~= v0.after_set_connected(id, conn_id, t));
                        }
                    },
                    None => {
                        proof {
                            let t: OffsetDateTime = vstd::pervasive::arbitrary();
                            assert(self@ == v0.after_set_connected(id, conn_id, t));
                        }
                    },
                }
                true
            },
            _ => {
                proof {
                    let t: OffsetDateTime = vstd::pervasive::arbitrary();
                    assert(self@ == v0.after_set_connected(id, conn_id, t));
                }
                false
            },
        }
    }
}

} // verus!
