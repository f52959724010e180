use kadmium::peering::{
    next_interval_secs, peer_deficit, plan_peering, search_step, PeeringAction, SearchStep,
};
use kadmium::PeerAddr;

fn addrs(ports: std::ops::Range<u16>) -> Vec<PeerAddr> {
    ports.map(|p| PeerAddr::new_v4([10, 0, 0, 1], p)).collect()
}

#[test]
fn deficit() {
    assert_eq!(peer_deficit(10, 3), 7);
    assert_eq!(peer_deficit(10, 12), -2);
    assert_eq!(peer_deficit(0, 0), 0);
}

#[test]
fn too_many_peers_are_dropped() {
    let connected = addrs(0..12);
    let disconnected = addrs(100..105);
    match plan_peering(10, &connected, &disconnected) {
        PeeringAction::Disconnect(drop) => {
            assert_eq!(drop.len(), 2);
            assert!(drop.iter().all(|a| connected.contains(a)));
            assert_ne!(drop[0], drop[1]);
        }
        _ => panic!("expected a disconnect"),
    }
}

#[test]
fn missing_peers_are_dialled() {
    let connected = addrs(0..3);
    let disconnected = addrs(100..105);
    match plan_peering(10, &connected, &disconnected) {
        PeeringAction::Connect(dial) => {
            // Fewer disconnected peers than missing: all of them.
            assert_eq!(dial.len(), 5);
            assert!(dial.iter().all(|a| disconnected.contains(a)));
        }
        _ => panic!("expected a connect"),
    }
    match plan_peering(4, &connected, &disconnected) {
        PeeringAction::Connect(dial) => assert_eq!(dial.len(), 1),
        _ => panic!("expected a connect"),
    }
}

#[test]
fn enough_peers_do_nothing() {
    assert!(matches!(
        plan_peering(3, &addrs(0..3), &addrs(100..105)),
        PeeringAction::Nothing
    ));
}

#[test]
fn interval() {
    assert_eq!(next_interval_secs(3, 10, 10, 60), 10);
    assert_eq!(next_interval_secs(10, 10, 10, 60), 60);
    assert_eq!(next_interval_secs(11, 10, 10, 60), 60);
}

#[test]
fn search_reaches_connected_peers_by_checking_and_others_by_dialling() {
    assert!(matches!(search_step(true), SearchStep::CheckConnection));
    assert!(matches!(search_step(false), SearchStep::Dial));
}
