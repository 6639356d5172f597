use easytier::link_state::{
    all_positive, transition, LinkEvent, LinkStateDb, NeighborState, Verdict,
};
use easytier::model::{LinkState, NatType, Neighbor, NodeInfo, PeerConnection, PeerId};
use easytier::peer_manager::{forward_targets, link_state_of, PeerManager};

fn link_state(origin: PeerId, seq: u64, neighbors: &[(PeerId, u32)]) -> LinkState {
    LinkState {
        origin,
        seq,
        neighbors: neighbors.iter().map(|&(peer_id, cost)| Neighbor { peer_id, cost }).collect(),
        hostname: format!("host-{}", origin),
        ipv4_addr: None,
        version: "1".to_string(),
        nat_type: NatType::Unknown,
        latency_us: None,
        loss_milli: None,
    }
}

fn node(peer_id: PeerId, ipv4_addr: &str) -> NodeInfo {
    NodeInfo {
        peer_id,
        hostname: "me".to_string(),
        ipv4_addr: ipv4_addr.to_string(),
        version: "2.0.1".to_string(),
        nat_type: Some(NatType::Symmetric),
    }
}

fn conn(conn_id: u64, peer_id: PeerId) -> PeerConnection {
    PeerConnection {
        conn_id,
        peer_id,
        protocol: "tcp".to_string(),
        latency_us: None,
        loss_milli: 0,
        rx_bytes: 0,
        tx_bytes: 0,
        alive: true,
    }
}

#[test]
fn first_link_state_of_an_origin_is_accepted() {
    let mut db = LinkStateDb::new();
    assert_eq!(db.status(4), NeighborState::Unknown);
    assert!(db.get(4).is_none());
    assert_eq!(db.accept(link_state(4, 0, &[(5, 1)])), Verdict::Accepted);
    assert_eq!(db.status(4), NeighborState::Synchronized);
    assert_eq!(db.get(4).unwrap().seq, 0);
    assert_eq!(db.links_of(4).unwrap(), &vec![Neighbor { peer_id: 5, cost: 1 }]);
    assert_eq!(db.origins(), vec![4]);
}

#[test]
fn only_a_strictly_newer_sequence_number_is_accepted() {
    let mut db = LinkStateDb::new();
    assert_eq!(db.accept(link_state(4, 10, &[(5, 1)])), Verdict::Accepted);
    assert_eq!(db.accept(link_state(4, 10, &[(6, 1)])), Verdict::NotNewer);
    assert_eq!(db.accept(link_state(4, 9, &[(6, 1)])), Verdict::NotNewer);
    assert_eq!(db.links_of(4).unwrap(), &vec![Neighbor { peer_id: 5, cost: 1 }]);
    assert_eq!(db.accept(link_state(4, 11, &[(6, 1)])), Verdict::Accepted);
    assert_eq!(db.links_of(4).unwrap(), &vec![Neighbor { peer_id: 6, cost: 1 }]);
    assert_eq!(db.get(4).unwrap().seq, 11);
}

#[test]
fn sequence_numbers_of_different_origins_are_independent() {
    let mut db = LinkStateDb::new();
    assert_eq!(db.accept(link_state(4, 10, &[])), Verdict::Accepted);
    assert_eq!(db.accept(link_state(5, 1, &[])), Verdict::Accepted);
    let mut origins = db.origins();
    origins.sort();
    assert_eq!(origins, vec![4, 5]);
}

#[test]
fn link_of_cost_zero_makes_a_link_state_malformed() {
    let mut db = LinkStateDb::new();
    assert_eq!(db.accept(link_state(4, 1, &[(5, 1), (6, 0)])), Verdict::Malformed);
    assert_eq!(db.status(4), NeighborState::Unknown);
    assert!(db.origins().is_empty());
    // Malformed is reported even where the sequence number is old.
    assert_eq!(db.accept(link_state(4, 5, &[(5, 1)])), Verdict::Accepted);
    assert_eq!(db.accept(link_state(4, 2, &[(6, 0)])), Verdict::Malformed);
    assert_eq!(db.get(4).unwrap().seq, 5);
    assert!(all_positive(&vec![]));
    assert!(all_positive(&vec![Neighbor { peer_id: 1, cost: u32::MAX }]));
    assert!(!all_positive(&vec![Neighbor { peer_id: 1, cost: 0 }]));
}

#[test]
fn transition_table() {
    let unknown = NeighborState::Unknown;
    let advertising = NeighborState::Advertising;
    let synchronized = NeighborState::Synchronized;
    let stale = NeighborState::Stale;
    let table = [
        (unknown, LinkEvent::Advertised, advertising),
        (unknown, LinkEvent::Refreshed, synchronized),
        (unknown, LinkEvent::DeadlineMissed, unknown),
        (unknown, LinkEvent::GraceExpired, unknown),
        (advertising, LinkEvent::Advertised, advertising),
        (advertising, LinkEvent::Refreshed, synchronized),
        (advertising, LinkEvent::DeadlineMissed, unknown),
        (advertising, LinkEvent::GraceExpired, advertising),
        (synchronized, LinkEvent::Advertised, synchronized),
        (synchronized, LinkEvent::Refreshed, synchronized),
        (synchronized, LinkEvent::DeadlineMissed, stale),
        (synchronized, LinkEvent::GraceExpired, synchronized),
        (stale, LinkEvent::Advertised, stale),
        (stale, LinkEvent::Refreshed, synchronized),
        (stale, LinkEvent::DeadlineMissed, stale),
        (stale, LinkEvent::GraceExpired, unknown),
    ];
    for (state, event, next) in table {
        assert_eq!(transition(state, event), next);
    }
}

#[test]
fn relationship_runs_through_its_states() {
    let mut db = LinkStateDb::new();
    db.advertise(4);
    assert_eq!(db.status(4), NeighborState::Advertising);
    assert!(db.get(4).is_none());
    assert!(db.links_of(4).is_none());
    assert_eq!(db.accept(link_state(4, 3, &[(5, 1)])), Verdict::Accepted);
    assert_eq!(db.status(4), NeighborState::Synchronized);
    db.miss_deadline(4);
    assert_eq!(db.status(4), NeighborState::Stale);
    assert!(db.links_of(4).is_none());
    assert_eq!(db.get(4).unwrap().seq, 3);
    db.expire_grace(4);
    assert_eq!(db.status(4), NeighborState::Unknown);
    assert!(db.get(4).is_none());
    // Once purged, the sequence number is forgotten.
    assert_eq!(db.accept(link_state(4, 1, &[(5, 1)])), Verdict::Accepted);
}

#[test]
fn events_that_do_not_apply_change_nothing() {
    let mut db = LinkStateDb::new();
    db.miss_deadline(4);
    db.expire_grace(4);
    assert_eq!(db.status(4), NeighborState::Unknown);
    assert!(db.origins().is_empty());
    db.accept(link_state(4, 3, &[(5, 1)]));
    db.expire_grace(4);
    db.advertise(4);
    assert_eq!(db.status(4), NeighborState::Synchronized);
    assert_eq!(db.get(4).unwrap().seq, 3);
    db.advertise(9);
    db.miss_deadline(9);
    assert_eq!(db.status(9), NeighborState::Unknown);
    assert_eq!(db.origins(), vec![4]);
}

#[test]
fn accepted_link_state_is_flooded_to_the_other_neighbors() {
    let ids = vec![2, 3, 4, 5];
    assert_eq!(forward_targets(&ids, 4, 2, Verdict::Accepted), vec![3, 5]);
    assert_eq!(forward_targets(&ids, 9, 9, Verdict::Accepted), vec![2, 3, 4, 5]);
    assert_eq!(forward_targets(&ids, 4, 2, Verdict::NotNewer), vec![]);
    assert_eq!(forward_targets(&ids, 4, 2, Verdict::Malformed), vec![]);
    let mut mgr = PeerManager::new(node(1, ""));
    mgr.add_connection(2, conn(1, 2));
    mgr.add_connection(3, conn(1, 3));
    mgr.add_connection(4, conn(1, 4));
    let verdict = mgr.handle_link_state(link_state(4, 1, &[(1, 1)]));
    assert_eq!(mgr.flood(4, 2, verdict), vec![3]);
    let again = mgr.handle_link_state(link_state(4, 1, &[(1, 1)]));
    assert_eq!(again, Verdict::NotNewer);
    assert_eq!(mgr.flood(4, 3, again), vec![]);
}

#[test]
fn local_link_state_reports_neighbors_at_cost_one() {
    let mut mgr = PeerManager::new(node(1, "10.144.144.7/24"));
    mgr.add_connection(5, conn(1, 5));
    mgr.add_connection(3, conn(1, 3));
    mgr.add_connection(5, conn(2, 5));
    let ls = mgr.local_link_state(17);
    assert_eq!(ls.origin, 1);
    assert_eq!(ls.seq, 17);
    assert_eq!(
        ls.neighbors,
        vec![Neighbor { peer_id: 5, cost: 1 }, Neighbor { peer_id: 3, cost: 1 }]
    );
    assert_eq!(ls.hostname, "me");
    assert_eq!(ls.version, "2.0.1");
    assert_eq!(ls.nat_type, NatType::Symmetric);
    let addr = ls.ipv4_addr.unwrap();
    assert_eq!(addr.address, 0x0a90_9007);
    assert_eq!(addr.network_length, 24);
    assert_eq!(ls.latency_us, None);
    let bare = PeerManager::new(node(1, "not an address")).local_link_state(0);
    assert_eq!(bare.ipv4_addr, None);
    assert!(bare.neighbors.is_empty());
    let made = link_state_of(&node(8, ""), Some((1, 2)), 3, &vec![4]);
    assert_eq!(made.origin, 8);
    assert_eq!(made.ipv4_addr.unwrap().address, 1);
    assert_eq!(made.ipv4_addr.unwrap().network_length, 2);
}

#[test]
fn recomputation_is_coalesced() {
    let mut mgr = PeerManager::new(node(1, ""));
    assert!(!mgr.recompute());
    mgr.add_connection(2, conn(1, 2));
    mgr.add_connection(3, conn(1, 3));
    mgr.handle_link_state(link_state(2, 1, &[(9, 1)]));
    assert!(mgr.list_routes().is_empty());
    assert!(mgr.recompute());
    assert_eq!(mgr.list_routes().len(), 3);
    assert!(!mgr.recompute());
    // A link state that is dropped asks for nothing.
    mgr.handle_link_state(link_state(2, 1, &[(9, 1)]));
    assert!(!mgr.recompute());
    assert!(!mgr.remove_connection(7, 7));
    assert!(!mgr.recompute());
    mgr.miss_deadline(2);
    assert!(mgr.recompute());
    assert_eq!(mgr.list_routes().len(), 2);
    // Advertising changes no route and asks for nothing.
    mgr.advertise(3);
    assert!(!mgr.recompute());
    assert_eq!(mgr.list_routes().len(), 2);
    mgr.expire_grace(2);
    assert!(mgr.recompute());
}
