//! The decisions of the periodic peer discovery: how far the peer count is from its target,
//! which peers to drop or dial, and how long to wait before the next round.

use vstd::prelude::*;

use crate::addr::PeerAddr;
use crate::outside::choose_addrs;

verus! {

/// What a round of peer discovery does about the number of connected peers.
pub enum PeeringAction {
    /// Disconnect these connected addresses: there are more peers than the target.
    Disconnect(Vec<PeerAddr>),
    /// Connect to these disconnected addresses: there are fewer peers than the target.
    Connect(Vec<PeerAddr>),
    /// The number of connected peers is the target.
    Nothing,
}

/// The number of peers missing to reach the target; negative when there are more.
pub open spec fn deficit_spec(target: u16, connected: nat) -> int {
    target as int - connected as int
}

/// `chosen` is `amount` of `addrs` (all of them if there are fewer), none taken more often than
/// it occurs.
pub open spec fn is_choice_from(addrs: Seq<PeerAddr>, amount: int, chosen: Seq<PeerAddr>) -> bool {
    &&& chosen.len() == if amount < addrs.len() { amount } else { addrs.len() as int }
    &&& chosen.to_multiset().subset_of(addrs.to_multiset())
}

/// Returns the number of peers missing to reach the target (negative when there are more).
pub fn peer_deficit(target: u16, connected: usize) -> (deficit: i128)
    ensures
        deficit == deficit_spec(target, connected as nat),
{
    target as i128 - connected as i128
}

/// Decides what a round of peer discovery does: with more connected peers than the target, it
/// disconnects as many connected addresses, picked at random, as there are too many; with fewer,
/// it connects as many disconnected addresses, picked at random, as are missing (all of them if
/// there are not that many).
pub fn plan_peering(target: u16, connected: &Vec<PeerAddr>, disconnected: &Vec<PeerAddr>) -> (action:
    PeeringAction)
    ensures
        ({
            let deficit = deficit_spec(target, connected@.len());
            match action {
                PeeringAction::Disconnect(addrs) => deficit < 0 && is_choice_from(
                    connected@,
                    -deficit,
                    addrs@,
                ),
                PeeringAction::Connect(addrs) => deficit > 0 && is_choice_from(
                    disconnected@,
                    deficit,
                    addrs@,
                ),
                PeeringAction::Nothing => deficit == 0,
            }
        }),
{
    let deficit = peer_deficit(target, connected.len());
    if deficit < 0 {
        PeeringAction::Disconnect(choose_addrs(connected, (-deficit) as usize))
    } else if deficit > 0 {
        PeeringAction::Connect(choose_addrs(disconnected, deficit as usize))
    } else {
        PeeringAction::Nothing
    }
}

/// How a search round reaches a peer that it picked.
pub enum SearchStep {
    /// The peer is recorded as connected: check that the connection is still up.
    CheckConnection,
    /// The peer is recorded as disconnected: dial it.
    Dial,
}

/// Decides how a search round reaches a picked peer, given whether the router records it as
/// connected; the peer is queried for its closest peers once this step finds it reachable.
pub fn search_step(is_connected: bool) -> (step: SearchStep)
    ensures
        step == if is_connected {
            SearchStep::CheckConnection
        } else {
            SearchStep::Dial
        },
{
    if is_connected {
        SearchStep::CheckConnection
    } else {
        SearchStep::Dial
    }
}

/// Returns the seconds to wait before the next round: the bootstrap interval while there are
/// fewer connected peers than the target, the discovery interval otherwise.
pub fn next_interval_secs(
    connected: usize,
    target: u16,
    bootstrap_interval_secs: u64,
    discovery_interval_secs: u64,
) -> (secs: u64)
    ensures
        secs == if connected < target {
            bootstrap_interval_secs
        } else {
            discovery_interval_secs
        },
{
    if connected < target as usize {
        bootstrap_interval_secs
    } else {
        discovery_interval_secs
    }
}

} // verus!
