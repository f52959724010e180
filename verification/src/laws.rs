//! Laws of the library: properties that hold of every input, and of sequences of calls, stated
//! over the states and results that the functions' contracts describe.

use time::OffsetDateTime;
use vstd::arithmetic::power2::{lemma2_to64, lemma_pow2_adds, pow2};
use vstd::bits::{lemma_u32_pow2_no_overflow, lemma_u32_shl_is_mul};
use vstd::prelude::*;
use vstd::std_specs::bits::{axiom_u16_leading_zeros, u16_leading_zeros, u8_leading_zeros};

use crate::addr::PeerAddr;
use crate::assoc::{key_index, lemma_assoc_update, lemma_key_index};
use crate::id::{
    byte_bit, highest_differing_bit, lemma_byte_msb, lemma_byte_msb_bounds,
    lemma_highest_differing_bit_at, lemma_log2_distance_none, lemma_log2_distance_symmetric,
    lemma_xor_facts, lemma_zero_byte_bits, log2_distance_spec, u16_id_bytes, xor_bit, xor_value, Id,
};
use crate::message::{Message, Pong, Response};
use crate::closest::{dist_rank, selects_closest};
use crate::tcp::router::{
    connected_conn_addrs, disconnected_listening_addrs, fresh_meta, lemma_after_insert_all_keeps_seen, lemma_sender_seen, lemma_touch_insert_all_commute,
};
use crate::tcp::{ConnState, TcpMeta, TcpRouterView};

verus! {

/// The distance of two identifiers is `None` exactly when they are the same identifier.
pub proof fn law_log2_distance_zero_iff_equal(a: Id, b: Id)
    ensures
        log2_distance_spec(a, b) is None <==> a == b,
{
    lemma_log2_distance_none(a, b);
}

/// The distance is symmetric: `a` is as far from `b` as `b` is from `a`.
pub proof fn law_log2_distance_symmetric(a: Id, b: Id)
    ensures
        log2_distance_spec(a, b) == log2_distance_spec(b, a),
{
    lemma_log2_distance_symmetric(a, b);
}

/// The distance is the position of the most significant bit in which the identifiers differ:
/// they differ in that bit and agree in every bit above it.
pub proof fn law_log2_distance_is_highest_differing_bit(a: Id, b: Id)
    ensures
        log2_distance_spec(a, b) matches Some(n) ==> n < 256 && xor_bit(a@, b@, n as int) && forall|
            m: int,
        | n < m < 256 ==> !xor_bit(a@, b@, m),
{
    lemma_highest_bit_facts(a@, b@, 256);
}

/// For identifiers made from 16-bit numbers, the distance is the position of the most
/// significant bit of the numbers' XOR: 15 minus its leading zeros.
pub proof fn law_log2_distance_of_u16_ids(a: Id, b: Id, x: u16, y: u16)
    requires
        a@ == u16_id_bytes(x),
        b@ == u16_id_bytes(y),
        x != y,
    ensures
        log2_distance_spec(a, b) == Some((15 - u16_leading_zeros(x ^ y)) as u32),
{
    let z = x ^ y;
    assert(x != y ==> x ^ y != 0) by (bit_vector);
    axiom_u16_leading_zeros(z);
    let p: u16 = (15 - u16_leading_zeros(z)) as u16;
    assert((z >> p) & 1u16 != 0u16);
    assert forall|m: int| 0 <= m < 256 implies xor_bit(a@, b@, m) == (m < 16 && (z >> (m as u16))
        & 1u16 != 0u16) by {
        let k = (m % 8) as u8;
        if m < 8 {
            assert(m / 8 == 0);
            lemma_u16_byte_bits(x, y, k);
        } else if m < 16 {
            assert(m / 8 == 1);
            assert((k + 8) as u16 == m as u16);
            lemma_u16_byte_bits(x, y, k);
        } else {
            lemma_xor_facts(0u8, 0u8);
            lemma_zero_byte_bits(0u8 ^ 0u8, k);
        }
    }
    assert forall|m: int| p < m < 256 implies !xor_bit(a@, b@, m) by {
        if m < 16 {
            assert((z >> (m as u16)) & 1u16 == 0u16);
        }
    }
    lemma_highest_differing_bit_at(a@, b@, 256, p as nat);
}

/// The distance is the floor of the log2 of the XOR distance, the XOR of the identifiers read as
/// little-endian numbers: for distance `i`, that number is at least 2^i and below 2^(i + 1); for
/// no distance, it is 0.
pub proof fn law_log2_distance_is_floor_log2_of_xor(a: Id, b: Id)
    ensures
        match log2_distance_spec(a, b) {
            Some(i) => pow2(i as nat) <= xor_value(a@, b@, 32) < pow2(i as nat + 1),
            None => xor_value(a@, b@, 32) == 0,
        },
{
    lemma_xor_value_log2(a@, b@, 32);
}

proof fn lemma_xor_value_log2(a: Seq<u8>, b: Seq<u8>, n: nat)
    requires
        n <= 32,
    ensures
        xor_value(a, b, n) < pow2(8 * n),
        match highest_differing_bit(a, b, 8 * n) {
            Some(i) => pow2(i as nat) <= xor_value(a, b, n) < pow2(i as nat + 1),
            None => xor_value(a, b, n) == 0,
        },
    decreases n,
{
    lemma2_to64();
    if n > 0 {
        let m = (n - 1) as nat;
        lemma_xor_value_log2(a, b, m);
        let c = a[m as int] ^ b[m as int];
        let p = pow2(8 * m);
        let v = xor_value(a, b, m);
        assert(xor_value(a, b, n) == v + (c as nat) * p);
        lemma_pow2_adds(8 * m, 8);
        assert(8 * n == 8 * m + 8);
        assert(pow2(8 * n) == p * 256);
        assert((c as nat) * p <= 255 * p) by (nonlinear_arith)
            requires
                c <= 255,
        ;
        assert forall|k: int| 8 * m <= k < 8 * n implies #[trigger] xor_bit(a, b, k) == byte_bit(
            c,
            (k - 8 * m) as u8,
        ) by {
            assert(k / 8 == m);
            assert(k % 8 == k - 8 * m);
        }
        if c == 0 {
            assert forall|k: int| 8 * m <= k < 8 * n implies !xor_bit(a, b, k) by {
                lemma_zero_byte_bits(c, (k - 8 * m) as u8);
            }
            lemma_highest_differing_bit_skip(a, b, 8 * m, 8 * n);
            assert(xor_value(a, b, n) == v);
        } else {
            lemma_byte_msb_bounds(c);
            let r: nat = (7 - u8_leading_zeros(c)) as nat;
            lemma_byte_msb(c, r as u32);
            assert forall|k: int| 8 * m + r < k < 8 * n implies !xor_bit(a, b, k) by {
                assert(!byte_bit(c, (k - 8 * m) as u8));
            }
            assert(xor_bit(a, b, (8 * m + r) as int));
            lemma_highest_differing_bit_at(a, b, 8 * n, 8 * m + r);
            lemma_u32_pow2_no_overflow(r);
            lemma_u32_pow2_no_overflow(r + 1);
            lemma_u32_shl_is_mul(1u32, r as u32);
            lemma_u32_shl_is_mul(1u32, (r + 1) as u32);
            assert(pow2(r) <= c && c < pow2(r + 1));
            lemma_pow2_adds(r, 8 * m);
            lemma_pow2_adds(r + 1, 8 * m);
            let pr = pow2(r);
            let pr1 = pow2(r + 1);
            assert(pr * p <= (c as nat) * p && ((c as nat) + 1) * p <= pr1 * p
                && ((c as nat) + 1) * p == (c as nat) * p + p) by (nonlinear_arith)
                requires
                    pr <= c,
                    c + 1 <= pr1,
            ;
            assert(8 * m + r + 1 == r + 1 + 8 * m);
            assert(highest_differing_bit(a, b, 8 * n) == Some((8 * m + r) as u32));
            assert(pow2(8 * m + r) <= xor_value(a, b, n));
            assert(xor_value(a, b, n) < pow2(8 * m + r + 1));
        }
    }
}

/// Below `hi`, the highest differing bit is that below `lo` when no bit from `lo` on differs.
proof fn lemma_highest_differing_bit_skip(a: Seq<u8>, b: Seq<u8>, lo: nat, hi: nat)
    requires
        lo <= hi,
        forall|k: int| lo <= k < hi ==> !#[trigger] xor_bit(a, b, k),
    ensures
        highest_differing_bit(a, b, hi) == highest_differing_bit(a, b, lo),
    decreases hi,
{
    if hi > lo {
        assert(!xor_bit(a, b, hi - 1));
        lemma_highest_differing_bit_skip(a, b, lo, (hi - 1) as nat);
    }
}

/// Bit `k` of the XOR of the low bytes, and of the high bytes, of two 16-bit numbers is bit `k`,
/// and bit `k + 8`, of the XOR of the numbers.
proof fn lemma_u16_byte_bits(x: u16, y: u16, k: u8)
    by (bit_vector)
    requires
        k < 8,
    ensures
        ((((x % 256) as u8 ^ (y % 256) as u8) >> k) & 1u8 == 1u8) == (((x ^ y) >> (k as u16)) & 1u16
            != 0u16),
        ((((x / 256) as u8 ^ (y / 256) as u8) >> k) & 1u8 == 1u8) == (((x ^ y) >> ((k + 8) as u16))
            & 1u16 != 0u16),
{
}

proof fn lemma_highest_bit_facts(a: Seq<u8>, b: Seq<u8>, n: nat)
    requires
        n <= 256,
    ensures
        crate::id::highest_differing_bit(a, b, n) matches Some(r) ==> r < n && xor_bit(
            a,
            b,
            r as int,
        ) && forall|m: int| r < m < n ==> !xor_bit(a, b, m),
    decreases n,
{
    if n > 0 {
        lemma_highest_bit_facts(a, b, (n - 1) as nat);
    }
}

/// The buckets hold exactly the connected peers: a known peer is connected if and only if it is
/// in the bucket of its distance to the local identifier.
pub proof fn law_connected_iff_in_bucket(v: TcpRouterView, id: Id)
    requires
        v.wf(),
    ensures
        (v.peer(id) matches Some(meta) && meta.conn_state == ConnState::Connected) <==> (
        log2_distance_spec(v.local_id, id) matches Some(i) && v.bucket(i).contains(id)),
{
    broadcast use lemma_key_index;

    if let Some(i) = log2_distance_spec(v.local_id, id) {
        if v.bucket(i).contains(id) {
            assert(v.buckets.contains_key(i));
        }
    }
    if v.peer(id) matches Some(meta) && meta.conn_state == ConnState::Connected {
        let p = key_index(v.peers, id);
        assert(v.peers[p].1.conn_state == ConnState::Connected);
    }
}

/// Inserting a peer that is known already keeps its connection state, its connection address
/// and when it was last seen, and only replaces its listening address; afterwards the address
/// leads to the peer.
pub proof fn law_insert_keeps_connection(v: TcpRouterView, id: Id, addr: PeerAddr)
    requires
        v.wf(),
        id != v.local_id,
        v.peer(id) is Some,
    ensures
        v.after_insert(id, addr).peer(id) == Some(
            TcpMeta { listening_addr: addr, ..v.peer(id)->Some_0 },
        ),
        v.after_insert(id, addr).peer_id(addr) == Some(id),
{
    broadcast use lemma_key_index;

    let p = key_index(v.peers, id);
    lemma_assoc_update(v.peers, p, TcpMeta { listening_addr: addr, ..v.peers[p].1 });
}

/// Inserting an unknown peer adds it as disconnected, with no connection address and not seen
/// yet.
pub proof fn law_insert_new_peer_is_disconnected(v: TcpRouterView, id: Id, addr: PeerAddr)
    requires
        v.wf(),
        id != v.local_id,
        v.peer(id) is None,
    ensures
        v.after_insert(id, addr).peer(id) == Some(
            TcpMeta {
                listening_addr: addr,
                conn_addr: None,
                conn_state: ConnState::Disconnected,
                last_seen: None,
            },
        ),
{
    broadcast use lemma_key_index;

    crate::assoc::lemma_assoc_push(v.peers, id, crate::tcp::router::fresh_meta(addr));
}

/// Inserting the same record twice has the effect of inserting it once.
pub proof fn law_insert_idempotent(v: TcpRouterView, id: Id, addr: PeerAddr)
    requires
        v.wf(),
    ensures
        v.after_insert(id, addr).after_insert(id, addr) == v.after_insert(id, addr),
{
    broadcast use lemma_key_index;

    if id != v.local_id {
        let w = v.after_insert(id, addr);
        let p = key_index(v.peers, id);
        if p >= 0 {
            lemma_assoc_update(v.peers, p, TcpMeta { listening_addr: addr, ..v.peers[p].1 });
        } else {
            crate::assoc::lemma_assoc_push(v.peers, id, crate::tcp::router::fresh_meta(addr));
        }
        assert(w.after_insert(id, addr).peers =~= w.peers);
        assert(w.after_insert(id, addr).addrs =~= w.addrs);
    }
}

/// The local identifier is never inserted.
pub proof fn law_insert_local_id_is_refused(v: TcpRouterView, addr: PeerAddr)
    ensures
        v.after_insert(v.local_id, addr) == v,
{
}

/// A known peer whose bucket has room gets connected: afterwards its connection address is
/// connected, and disconnecting that address succeeds, after which the address is no longer
/// connected, the peer is disconnected and out of its bucket.
pub proof fn law_connect_then_disconnect(
    v: TcpRouterView,
    id: Id,
    conn_addr: PeerAddr,
    t: OffsetDateTime,
)
    requires
        v.wf(),
        v.peer(id) is Some,
        v.can_connect(id).0,
    ensures
        ({
            let w = v.after_set_connected(id, conn_addr, t);
            let u = w.after_set_disconnected(conn_addr);
            let i = log2_distance_spec(v.local_id, id)->Some_0;
            &&& w.is_connected(conn_addr)
            &&& w.bucket(i).contains(id)
            &&& w.disconnect_applies(conn_addr)
            &&& w.disconnect_result(conn_addr)
            &&& !u.is_connected(conn_addr)
            &&& u.peer(id) matches Some(meta) && meta.conn_state == ConnState::Disconnected
                && meta.conn_addr is None
            &&& !u.bucket(i).contains(id)
        }),
{
    broadcast use lemma_key_index;

    let p = key_index(v.peers, id);
    let m = TcpMeta {
        conn_addr: Some(conn_addr),
        conn_state: ConnState::Connected,
        last_seen: Some(t),
        ..v.peers[p].1
    };
    lemma_assoc_update(v.peers, p, m);
    let w = v.after_set_connected(id, conn_addr, t);
    assert(w.peers == v.peers.update(p, (id, m)));
    let m2 = TcpMeta { conn_addr: None, conn_state: ConnState::Disconnected, ..m };
    lemma_assoc_update(w.peers, p, m2);
}

/// A full bucket refuses: connecting a peer whose bucket holds `max_bucket_size` identifiers
/// fails and leaves the peers and addresses as they were.
pub proof fn law_full_bucket_refuses(v: TcpRouterView, id: Id, conn_addr: PeerAddr, t: OffsetDateTime)
    requires
        v.wf(),
        log2_distance_spec(v.local_id, id) matches Some(i) && v.buckets.contains_key(i)
            && v.bucket(i).len() == v.max_bucket_size,
    ensures
        v.can_connect(id) == (false, None::<u32>),
        v.after_set_connected(id, conn_addr, t).peers == v.peers,
        v.after_set_connected(id, conn_addr, t).addrs == v.addrs,
        v.after_set_connected(id, conn_addr, t).buckets == v.buckets,
{
    let i = log2_distance_spec(v.local_id, id)->Some_0;
    assert(v.buckets.insert(i, v.bucket(i)) =~= v.buckets);
}

/// Disconnecting an address that belongs to no known peer fails and changes nothing.
pub proof fn law_disconnect_unknown_address(v: TcpRouterView, conn_addr: PeerAddr)
    requires
        !v.addrs.contains_key(conn_addr),
    ensures
        !v.disconnect_applies(conn_addr),
        !v.disconnect_result(conn_addr),
        v.after_set_disconnected(conn_addr) == v,
{
}

/// Disconnecting an address of a known peer that has no connection address (it is not
/// connected) fails and changes nothing.
pub proof fn law_disconnect_without_connection(v: TcpRouterView, conn_addr: PeerAddr)
    requires
        v.peer_id(conn_addr) matches Some(id) && (v.peer(id) matches Some(meta)
            && meta.conn_addr is None),
    ensures
        !v.disconnect_result(conn_addr),
        v.after_set_disconnected(conn_addr) == v,
{
}

/// Processing a message from a known address sets the sender's last-seen time: the sender's
/// entry gets the time and keeps all else. For every kind of message but K_NODES nothing else
/// changes: the other peers, the buckets and the addresses stay as they were.
pub proof fn law_message_marks_sender_seen(
    v: TcpRouterView,
    conn_addr: PeerAddr,
    t: OffsetDateTime,
    message: Message,
    next: TcpRouterView,
    response: Option<Response>,
)
    requires
        v.wf(),
        v.peer_id(conn_addr) is Some,
        v.touched(v.addrs[conn_addr], t).message_outcome(message, next, response),
    ensures
        ({
            let id = v.addrs[conn_addr];
            &&& next.peer(id) matches Some(meta) && meta.last_seen == Some(t)
            &&& !(message is KNodes) ==> {
                &&& next.peer(id) == Some(TcpMeta { last_seen: Some(t), ..v.peer(id)->Some_0 })
                &&& forall|x: Id| x != id ==> #[trigger] next.peer(x) == v.peer(x)
                &&& next.buckets == v.buckets
                &&& next.addrs == v.addrs
            }
        }),
{
    let id = v.addrs[conn_addr];
    lemma_sender_seen(v, id, t);
    if let Message::KNodes(k_nodes) = message {
        lemma_after_insert_all_keeps_seen(v.touched(id, t), k_nodes.nodes@);
    }
}

/// A K_NODES from a known address leaves the router as inserting its peers one by one, in
/// order, would leave it, except that the sender's last-seen time is set; nothing is answered.
pub proof fn law_k_nodes_inserts_in_order(
    v: TcpRouterView,
    conn_addr: PeerAddr,
    t: OffsetDateTime,
    k_nodes: crate::message::KNodes,
    next: TcpRouterView,
    response: Option<Response>,
)
    requires
        v.wf(),
        v.peer_id(conn_addr) is Some,
        v.touched(v.addrs[conn_addr], t).message_outcome(Message::KNodes(k_nodes), next, response),
    ensures
        next == v.after_insert_all(k_nodes.nodes@).touched(v.addrs[conn_addr], t),
        response is None,
{
    broadcast use lemma_key_index;

    lemma_touch_insert_all_commute(v, v.addrs[conn_addr], t, k_nodes.nodes@);
}

/// A PING is answered with a PONG that carries the same nonce and the local identifier, and
/// leaves the state as it is.
pub proof fn law_ping_answered_with_pong(
    v: TcpRouterView,
    ping: crate::message::Ping,
    next: TcpRouterView,
    response: Option<Response>,
)
    requires
        v.message_outcome(Message::Ping(ping), next, response),
    ensures
        next == v,
        response matches Some(Response::Unicast(Message::Pong(pong))) && pong.nonce == ping.nonce
            && pong.id == v.local_id,
{
}

/// A FIND_K_NODES is answered with a K_NODES that carries the same nonce and at most `k` peers,
/// none of them twice.
pub proof fn law_find_k_nodes_answered_with_k_nodes(
    v: TcpRouterView,
    query: crate::message::FindKNodes,
    next: TcpRouterView,
    response: Option<Response>,
)
    requires
        v.wf(),
        v.message_outcome(Message::FindKNodes(query), next, response),
    ensures
        next == v,
        response matches Some(Response::Unicast(Message::KNodes(k_nodes))) && k_nodes.nonce
            == query.nonce && k_nodes.nodes@.len() <= v.k && k_nodes.nodes@.len() <= v.peers.len()
            && k_nodes.nodes@.no_duplicates(),
{
    broadcast use lemma_key_index;

    let k_nodes = match response {
        Some(Response::Unicast(Message::KNodes(k_nodes))) => k_nodes,
        _ => arbitrary(),
    };
    let cands = v.listening_entries();
    let picked = choose|picked: Seq<int>|
        crate::closest::selects_closest(
            cands,
            v.distances_to(query.id),
            v.k as nat,
            k_nodes.nodes@,
            picked,
        );
    let r = k_nodes.nodes@;
    assert forall|a: int, b: int| 0 <= a < r.len() && 0 <= b < r.len() && a != b implies r[a]
        != r[b] by {
        assert(r[a] == cands[picked[a]]);
        assert(r[b] == cands[picked[b]]);
        assert(picked[a] != picked[b]);
        assert(v.peers[picked[a]].0 != v.peers[picked[b]].0);
    }
}

/// A CHUNK is passed on to at most one peer per bucket below its height, in increasing bucket
/// order, each through the connection of a peer of that bucket; a CHUNK of height 0 is not
/// passed on.
pub proof fn law_chunk_passed_on_below_height(
    v: TcpRouterView,
    chunk: crate::message::Chunk,
    next: TcpRouterView,
    response: Option<Response>,
)
    requires
        v.message_outcome(Message::Chunk(chunk), next, response),
    ensures
        next == v,
        chunk.height == 0 ==> response is None,
        response matches Some(Response::Broadcast(broadcast)) ==> forall|a: int, b: int|
            #![trigger broadcast@[a], broadcast@[b]]
            0 <= a < b < broadcast@.len() ==> (broadcast@[a].1 matches Message::Chunk(ca) && (
            broadcast@[b].1 matches Message::Chunk(cb) && ca.height < cb.height && cb.height
                < chunk.height && ca.nonce == chunk.nonce && ca.data == chunk.data)),
{
    if let Some(Response::Broadcast(broadcast)) = response {
        let sel = choose|sel: Seq<(u32, PeerAddr)>| #[trigger]
            v.is_broadcast_selection(chunk.height, sel) && broadcast@
                == crate::tcp::router::chunk_messages(sel, chunk.nonce, chunk.data);
        lemma_nonempty_buckets_increasing(v, chunk.height as nat);
        assert forall|a: int, b: int|
            #![trigger broadcast@[a], broadcast@[b]]
            0 <= a < b < broadcast@.len() implies (
        broadcast@[a].1 matches Message::Chunk(ca) && (broadcast@[b].1 matches Message::Chunk(cb)
            && ca.height < cb.height && cb.height < chunk.height && ca.nonce == chunk.nonce
            && ca.data == chunk.data)) by {
            assert(sel[a].0 == v.nonempty_buckets_below(chunk.height as nat)[a]);
            assert(sel[b].0 == v.nonempty_buckets_below(chunk.height as nat)[b]);
        }
    }
}

/// The non-empty buckets below `n` are listed in strictly increasing order, each below `n`.
proof fn lemma_nonempty_buckets_increasing(v: TcpRouterView, n: nat)
    requires
        n <= u32::MAX,
    ensures
        forall|a: int|
            0 <= a < v.nonempty_buckets_below(n).len() ==> #[trigger] v.nonempty_buckets_below(
                n,
            )[a] < n,
        forall|a: int, b: int|
            0 <= a < b < v.nonempty_buckets_below(n).len() ==> v.nonempty_buckets_below(n)[a]
                < v.nonempty_buckets_below(n)[b],
    decreases n,
{
    if n > 0 {
        lemma_nonempty_buckets_increasing(v, (n - 1) as nat);
        let s = v.nonempty_buckets_below((n - 1) as nat);
        let t = v.nonempty_buckets_below(n);
        if !v.bucket((n - 1) as u32).is_empty() {
            assert(t == s.push((n - 1) as u32));
            assert forall|a: int| 0 <= a < t.len() implies #[trigger] t[a] < n by {
                if a < s.len() {
                    assert(t[a] == s[a]);
                }
            }
            assert forall|a: int, b: int| 0 <= a < b < t.len() implies t[a] < t[b] by {
                assert(t[a] == s[a]);
                if b < s.len() {
                    assert(t[b] == s[b]);
                }
            }
        }
    }
}

/// `entry` is a known peer with its listening address.
pub open spec fn is_listening_entry_of(v: TcpRouterView, entry: (Id, PeerAddr)) -> bool {
    exists|j: int|
        0 <= j < v.peers.len() && (#[trigger] v.peers[j]).0 == entry.0 && v.peers[j].1.listening_addr
            == entry.1
}

/// Distance `a` to a target is no greater than distance `b`: being the target itself (no
/// distance) is closest, and distances compare as numbers.
pub open spec fn no_farther(a: Option<u32>, b: Option<u32>) -> bool {
    match (a, b) {
        (None, _) => true,
        (Some(_), None) => false,
        (Some(x), Some(y)) => x <= y,
    }
}

/// `addr` is the connection address of a peer in bucket `b`.
pub open spec fn is_conn_addr_of_bucket_peer(v: TcpRouterView, b: u32, addr: PeerAddr) -> bool {
    exists|id: Id| #[trigger]
        v.bucket(b).contains(id) && (v.peer(id) matches Some(m) && m.conn_addr == Some(addr))
}

/// A FIND_K_NODES for identifier `x` is answered with `min(k, number of known peers)` known peers,
/// each with its listening address, and no known peer left out is strictly closer to `x`, by
/// log2 distance, than one returned.
pub proof fn law_find_k_nodes_returns_peers_closest_to_target(
    v: TcpRouterView,
    query: crate::message::FindKNodes,
    next: TcpRouterView,
    response: Option<Response>,
)
    requires
        v.message_outcome(Message::FindKNodes(query), next, response),
    ensures
        response matches Some(Response::Unicast(Message::KNodes(k_nodes))) && {
            let r = k_nodes.nodes@;
            &&& k_nodes.nonce == query.nonce
            &&& r.len() == if (v.k as int) < v.peers.len() { v.k as int } else { v.peers.len() as int }
            &&& forall|a: int|
                0 <= a < r.len() ==> #[trigger] is_listening_entry_of(v, r[a])
            &&& forall|j: int, a: int|
                0 <= j < v.peers.len() && 0 <= a < r.len() && !r.contains(
                    (v.peers[j].0, v.peers[j].1.listening_addr),
                ) ==> no_farther(
                    log2_distance_spec(#[trigger] r[a].0, query.id),
                    log2_distance_spec(#[trigger] v.peers[j].0, query.id),
                )
        },
{
    let k_nodes = match response {
        Some(Response::Unicast(Message::KNodes(k_nodes))) => k_nodes,
        _ => arbitrary(),
    };
    let r = k_nodes.nodes@;
    let cands = v.listening_entries();
    let dists = v.distances_to(query.id);
    let picked = choose|picked: Seq<int>|
        selects_closest(cands, dists, v.k as nat, r, picked);
    assert forall|a: int| 0 <= a < r.len() implies #[trigger] is_listening_entry_of(v, r[a]) by {
        let j = picked[a];
        assert(r[a] == cands[j]);
        assert(cands[j] == (v.peers[j].0, v.peers[j].1.listening_addr));
    }
    assert forall|j: int, a: int|
        0 <= j < v.peers.len() && 0 <= a < r.len() && !r.contains(
            (v.peers[j].0, v.peers[j].1.listening_addr),
        ) implies no_farther(
        log2_distance_spec(#[trigger] r[a].0, query.id),
        log2_distance_spec(#[trigger] v.peers[j].0, query.id),
    ) by {
        if picked.contains(j) {
            let b = choose|b: int| 0 <= b < picked.len() && picked[b] == j;
            assert(r[b] == cands[j]);
            assert(r.contains(cands[j]));
        }
        assert(r[a] == cands[picked[a]]);
        assert(dist_rank(dists[picked[a]]) <= dist_rank(dists[j]));
    }
}

/// The buckets listed below `n` are exactly the non-empty buckets with an index below `n`.
proof fn lemma_nonempty_buckets_members(v: TcpRouterView, n: nat)
    requires
        n <= u32::MAX + 1,
    ensures
        forall|a: int|
            0 <= a < v.nonempty_buckets_below(n).len() ==> #[trigger] v.nonempty_buckets_below(
                n,
            )[a] < n && !v.bucket(v.nonempty_buckets_below(n)[a]).is_empty(),
        forall|b: u32|
            b < n && !(#[trigger] v.bucket(b)).is_empty() ==> exists|a: int|
                0 <= a < v.nonempty_buckets_below(n).len() && #[trigger] v.nonempty_buckets_below(
                    n,
                )[a] == b,
    decreases n,
{
    if n > 0 {
        lemma_nonempty_buckets_members(v, (n - 1) as nat);
        let s = v.nonempty_buckets_below((n - 1) as nat);
        let t = v.nonempty_buckets_below(n);
        let top = (n - 1) as u32;
        assert(top as nat == n - 1);
        if v.bucket(top).is_empty() {
            assert(t == s);
            assert forall|b: u32| b < n && !(#[trigger] v.bucket(b)).is_empty() implies exists|a: int|
                0 <= a < t.len() && #[trigger] t[a] == b by {
                assert(b != top);
            }
        } else {
            assert(t == s.push(top));
            assert forall|a: int| 0 <= a < t.len() implies #[trigger] t[a] < n && !v.bucket(
                t[a],
            ).is_empty() by {
                if a < s.len() {
                    assert(t[a] == s[a]);
                }
            }
            assert forall|b: u32| b < n && !(#[trigger] v.bucket(b)).is_empty() implies exists|a: int|
                0 <= a < t.len() && #[trigger] t[a] == b by {
                if b == top {
                    assert(t[s.len() as int] == b);
                } else {
                    let a = choose|a: int| 0 <= a < s.len() && #[trigger] s[a] == b;
                    assert(t[a] == s[a]);
                }
            }
        }
    }
}

/// A broadcast at height `h` picks, for every non-empty bucket with an index below `h`, exactly
/// one peer of that bucket, reached through its connection address, and nothing else.
pub proof fn law_broadcast_covers_each_nonempty_bucket_once(
    v: TcpRouterView,
    height: u32,
    sel: Seq<(u32, PeerAddr)>,
)
    requires
        v.is_broadcast_selection(height, sel),
    ensures
        forall|b: u32|
            b < height && !(#[trigger] v.bucket(b)).is_empty() ==> exists|j: int|
                0 <= j < sel.len() && #[trigger] sel[j].0 == b,
        forall|j: int|
            0 <= j < sel.len() ==> (#[trigger] sel[j]).0 < height && !v.bucket(sel[j].0).is_empty(),
        forall|i: int, j: int| 0 <= i < j < sel.len() ==> (#[trigger] sel[i]).0 != (#[trigger] sel[j]).0,
        forall|j: int|
            0 <= j < sel.len() ==> #[trigger] is_conn_addr_of_bucket_peer(v, sel[j].0, sel[j].1),
{
    let hs = v.nonempty_buckets_below(height as nat);
    lemma_nonempty_buckets_members(v, height as nat);
    lemma_nonempty_buckets_increasing(v, height as nat);
    assert forall|b: u32| b < height && !(#[trigger] v.bucket(b)).is_empty() implies exists|j: int|
        0 <= j < sel.len() && #[trigger] sel[j].0 == b by {
        let j = choose|j: int| 0 <= j < hs.len() && #[trigger] hs[j] == b;
        assert(sel[j].0 == hs[j]);
    }
    assert forall|j: int| 0 <= j < sel.len() implies (#[trigger] sel[j]).0 < height && !v.bucket(
        sel[j].0,
    ).is_empty() by {
        assert(sel[j].0 == hs[j]);
    }
    assert forall|i: int, j: int| 0 <= i < j < sel.len() implies (#[trigger] sel[i]).0 != (
    #[trigger] sel[j]).0 by {
        assert(sel[i].0 == hs[i]);
        assert(sel[j].0 == hs[j]);
    }
    assert forall|j: int| 0 <= j < sel.len() implies #[trigger] is_conn_addr_of_bucket_peer(
        v,
        sel[j].0,
        sel[j].1,
    ) by {
        assert(v.conn_addr_in_bucket(sel[j].0, sel[j].1));
        let id = choose|id: Id| #[trigger]
            v.bucket(sel[j].0).contains(id) && (v.peer(id) matches Some(m) && m.conn_addr
                == Some(sel[j].1));
        assert(v.bucket(sel[j].0).contains(id));
    }
}

/// A peer whose bucket holds fewer identifiers than the bucket size can connect, whatever `k`
/// is: `can_connect` answers `true` with the bucket's index, and `set_connected` connects it,
/// adds it to that bucket and maps the connection address to it.
pub proof fn law_room_in_bucket_connects(
    v: TcpRouterView,
    id: Id,
    conn_addr: PeerAddr,
    t: OffsetDateTime,
)
    requires
        v.wf(),
        v.peer(id) is Some,
        log2_distance_spec(v.local_id, id) matches Some(i) && v.bucket(i).len() < v.max_bucket_size,
    ensures
        v.can_connect(id) == (true, log2_distance_spec(v.local_id, id)),
        ({
            let i = log2_distance_spec(v.local_id, id)->Some_0;
            let w = v.after_set_connected(id, conn_addr, t);
            &&& w.peer(id) == Some(
                TcpMeta {
                    conn_addr: Some(conn_addr),
                    conn_state: ConnState::Connected,
                    last_seen: Some(t),
                    ..v.peer(id)->Some_0
                },
            )
            &&& w.bucket(i) == v.bucket(i).insert(id)
            &&& w.peer_id(conn_addr) == Some(id)
        }),
{
    broadcast use lemma_key_index;

    let i = log2_distance_spec(v.local_id, id)->Some_0;
    let p = key_index(v.peers, id);
    lemma_assoc_update(
        v.peers,
        p,
        TcpMeta {
            conn_addr: Some(conn_addr),
            conn_state: ConnState::Connected,
            last_seen: Some(t),
            ..v.peers[p].1
        },
    );
}

/// The disconnected addresses are the listening addresses of the disconnected peers, in peer
/// order, and nothing else.
pub proof fn law_disconnected_addrs_are_those_of_disconnected_peers(peers: Seq<(Id, TcpMeta)>)
    ensures
        disconnected_listening_addrs(peers) == peers.filter(
            |e: (Id, TcpMeta)| e.1.conn_state == ConnState::Disconnected,
        ).map_values(|e: (Id, TcpMeta)| e.1.listening_addr),
    decreases peers.len(),
{
    reveal(Seq::filter);
    if peers.len() > 0 {
        law_disconnected_addrs_are_those_of_disconnected_peers(peers.drop_last());
        let pred = |e: (Id, TcpMeta)| e.1.conn_state == ConnState::Disconnected;
        let f = |e: (Id, TcpMeta)| e.1.listening_addr;
        let sub = peers.drop_last().filter(pred);
        assert(peers.filter(pred) == if pred(peers.last()) {
            sub.push(peers.last())
        } else {
            sub
        });
        if pred(peers.last()) {
            assert(sub.push(peers.last()).map_values(f) =~= sub.map_values(f).push(
                f(peers.last()),
            ));
            assert(disconnected_listening_addrs(peers) == disconnected_listening_addrs(peers.drop_last()).push(peers.last().1.listening_addr));
        } else {
            assert(disconnected_listening_addrs(peers) == disconnected_listening_addrs(peers.drop_last()));
        }
        assert(disconnected_listening_addrs(peers.drop_last()) == sub.map_values(f));
    }
}

/// The connected addresses are the connection addresses of the connected peers, in peer order,
/// and nothing else.
pub proof fn law_connected_addrs_are_those_of_connected_peers(peers: Seq<(Id, TcpMeta)>)
    ensures
        connected_conn_addrs(peers) == peers.filter(
            |e: (Id, TcpMeta)| e.1.conn_state == ConnState::Connected,
        ).map_values(|e: (Id, TcpMeta)| e.1.conn_addr->Some_0),
    decreases peers.len(),
{
    reveal(Seq::filter);
    if peers.len() > 0 {
        law_connected_addrs_are_those_of_connected_peers(peers.drop_last());
        let pred = |e: (Id, TcpMeta)| e.1.conn_state == ConnState::Connected;
        let f = |e: (Id, TcpMeta)| e.1.conn_addr->Some_0;
        let sub = peers.drop_last().filter(pred);
        if pred(peers.last()) {
            assert(sub.push(peers.last()).map_values(f) =~= sub.map_values(f).push(
                f(peers.last()),
            ));
        }
    }
}

/// A peer learnt by inserting it (as from a K_NODES) is listed at the end of the disconnected
/// addresses, by its listening address, so that peer discovery can dial it.
pub proof fn law_inserted_peer_is_dialable(v: TcpRouterView, id: Id, addr: PeerAddr)
    requires
        v.wf(),
        id != v.local_id,
        v.peer(id) is None,
    ensures
        disconnected_listening_addrs(v.after_insert(id, addr).peers) == disconnected_listening_addrs(
            v.peers,
        ).push(addr),
{
    broadcast use lemma_key_index;

    let w = v.after_insert(id, addr);
    assert(w.peers == v.peers.push((id, fresh_meta(addr))));
    assert(w.peers.drop_last() =~= v.peers);
}

} // verus!
