use easytier::link_state::{LinkStateDb, NeighborState, Verdict};
use easytier::model::{
    Ipv4Inet, LinkState, NatType, Neighbor, NodeInfo, PeerConnection, PeerId, Route,
};
use easytier::paths::Hop;
use easytier::peer_manager::PeerManager;
use easytier::peer_table::PeerTable;
use easytier::model::PeerInfo;
use easytier::routes::{compute_routes, find_peer, hops_from, route_to};
use easytier::peer_manager::peer_ids;
use easytier::routing::{better, find_slot, insert_sorted, shortest_paths, Reach};
use easytier::search::Label;
use easytier::rpc::{list_routes, show_node_info, QueryError};

fn conn(conn_id: u64, peer_id: PeerId, protocol: &str, latency_us: Option<u64>) -> PeerConnection {
    PeerConnection {
        conn_id,
        peer_id,
        protocol: protocol.to_string(),
        latency_us,
        loss_milli: 0,
        rx_bytes: 0,
        tx_bytes: 0,
        alive: true,
    }
}

fn link_state(origin: PeerId, seq: u64, neighbors: &[(PeerId, u32)]) -> LinkState {
    LinkState {
        origin,
        seq,
        neighbors: neighbors.iter().map(|&(peer_id, cost)| Neighbor { peer_id, cost }).collect(),
        hostname: format!("host-{}", origin),
        ipv4_addr: Some(Ipv4Inet { address: 0x0a00_0000 + origin, network_length: 24 }),
        version: "2.1.0".to_string(),
        nat_type: NatType::FullCone,
        latency_us: Some(7_000 + origin as u64),
        loss_milli: Some(3),
    }
}

fn node(peer_id: PeerId) -> NodeInfo {
    NodeInfo {
        peer_id,
        hostname: "local".to_string(),
        ipv4_addr: "10.0.0.1/24".to_string(),
        version: "2.1.0".to_string(),
        nat_type: Some(NatType::Restricted),
    }
}

fn summary(routes: &[Route]) -> Vec<(PeerId, PeerId, u64)> {
    routes.iter().map(|r| (r.peer_id, r.next_hop_peer_id, r.cost)).collect()
}

#[test]
fn three_nodes_in_a_line() {
    // X = 1, Y = 2, Z = 3; X-Y and Y-Z are direct.
    let mut mgr = PeerManager::new(node(1));
    mgr.add_connection(2, conn(1, 2, "tcp", Some(5_000)));
    assert_eq!(mgr.handle_link_state(link_state(2, 1, &[(1, 1), (3, 1)])), Verdict::Accepted);
    assert_eq!(mgr.handle_link_state(link_state(3, 1, &[(2, 1)])), Verdict::Accepted);
    assert!(mgr.recompute());
    let routes = list_routes(Some(&mgr)).unwrap();
    assert_eq!(summary(&routes), vec![(2, 2, 1), (3, 2, 2)]);
    let to_z = &routes[1];
    assert_eq!(to_z.hostname, "host-3");
    assert_eq!(to_z.ipv4_addr, Some(Ipv4Inet { address: 0x0a00_0003, network_length: 24 }));
    assert_eq!(to_z.path_latency_us, Some(7_003));
    assert_eq!(to_z.loss_milli, Some(3));
    assert_eq!(to_z.tunnel_protos, vec!["tcp".to_string()]);
    let to_y = &routes[0];
    assert_eq!(to_y.path_latency_us, Some(5_000));
    assert_eq!(to_y.loss_milli, Some(0));
}

#[test]
fn equal_cost_prefers_lower_first_hop_latency() {
    // Two paths of cost 2 to node 20: over 5 (30 ms) and over 9 (10 ms).
    let mut peers = PeerTable::new();
    peers.add_connection(5, conn(1, 5, "udp", Some(30_000)));
    peers.add_connection(9, conn(1, 9, "udp", Some(10_000)));
    let mut db = LinkStateDb::new();
    db.accept(link_state(5, 1, &[(20, 1)]));
    db.accept(link_state(9, 1, &[(20, 1)]));
    let routes = compute_routes(1, &peers, &db);
    assert_eq!(summary(&routes), vec![(5, 5, 1), (9, 9, 1), (20, 9, 2)]);
}

#[test]
fn equal_cost_and_latency_prefers_smaller_next_hop() {
    let hops = vec![
        Hop { peer_id: 9, latency_us: Some(10_000) },
        Hop { peer_id: 5, latency_us: Some(10_000) },
    ];
    let mut db = LinkStateDb::new();
    db.accept(link_state(5, 1, &[(20, 1)]));
    db.accept(link_state(9, 1, &[(20, 1)]));
    let table = shortest_paths(1, &hops, &db);
    assert_eq!(
        table,
        vec![
            Reach { dest: 5, cost: 1, next_hop: 5, hop_latency_us: Some(10_000) },
            Reach { dest: 9, cost: 1, next_hop: 9, hop_latency_us: Some(10_000) },
            Reach { dest: 20, cost: 2, next_hop: 5, hop_latency_us: Some(10_000) },
        ]
    );
}

#[test]
fn unmeasured_first_hop_ranks_last() {
    let hops =
        vec![Hop { peer_id: 5, latency_us: None }, Hop { peer_id: 9, latency_us: Some(900_000) }];
    let mut db = LinkStateDb::new();
    db.accept(link_state(5, 1, &[(20, 1)]));
    db.accept(link_state(9, 1, &[(20, 1)]));
    let table = shortest_paths(1, &hops, &db);
    assert_eq!(table[2], Reach { dest: 20, cost: 2, next_hop: 9, hop_latency_us: Some(900_000) });
}

#[test]
fn lower_cost_beats_lower_latency() {
    // Over 5: 1 + 4 = 5. Over 9: 1 + 1 + 1 = 3, although 9 is the slower hop.
    let hops = vec![
        Hop { peer_id: 5, latency_us: Some(1_000) },
        Hop { peer_id: 9, latency_us: Some(50_000) },
    ];
    let mut db = LinkStateDb::new();
    db.accept(link_state(5, 1, &[(20, 4)]));
    db.accept(link_state(9, 1, &[(11, 1)]));
    db.accept(link_state(11, 1, &[(20, 1)]));
    let table = shortest_paths(1, &hops, &db);
    let to_20 = table.iter().find(|r| r.dest == 20).unwrap();
    assert_eq!(*to_20, Reach { dest: 20, cost: 3, next_hop: 9, hop_latency_us: Some(50_000) });
}

#[test]
fn removed_neighbor_takes_its_routes_along() {
    let mut mgr = PeerManager::new(node(1));
    mgr.add_connection(2, conn(7, 2, "tcp", Some(5_000)));
    mgr.handle_link_state(link_state(2, 1, &[(3, 1)]));
    mgr.recompute();
    assert_eq!(summary(&mgr.list_routes()), vec![(2, 2, 1), (3, 2, 2)]);
    assert!(mgr.remove_connection(2, 7));
    // Until the recomputation the old table is still served, whole.
    assert_eq!(summary(&mgr.list_routes()), vec![(2, 2, 1), (3, 2, 2)]);
    assert!(mgr.recompute());
    assert_eq!(summary(&mgr.list_routes()), vec![]);
}

#[test]
fn node_info_before_any_link_state() {
    let mgr = PeerManager::new(node(42));
    assert_eq!(show_node_info(Some(&mgr)), Ok(node(42)));
    assert_eq!(list_routes(Some(&mgr)), Ok(vec![]));
    assert_eq!(show_node_info(None), Err(QueryError::NotReady));
    assert_eq!(list_routes(None), Err(QueryError::NotReady));
}

#[test]
fn unreachable_destination_is_absent() {
    let mut peers = PeerTable::new();
    peers.add_connection(2, conn(1, 2, "tcp", Some(1)));
    let mut db = LinkStateDb::new();
    // 30 reports a link to 31, but nothing leads to 30.
    db.accept(link_state(30, 1, &[(31, 1)]));
    let routes = compute_routes(1, &peers, &db);
    assert_eq!(summary(&routes), vec![(2, 2, 1)]);
    assert!(routes.iter().all(|r| r.cost < u64::MAX));
}

#[test]
fn local_node_has_no_route_and_its_links_are_not_followed() {
    let mut peers = PeerTable::new();
    peers.add_connection(2, conn(1, 2, "tcp", Some(1)));
    let mut db = LinkStateDb::new();
    db.accept(link_state(2, 1, &[(1, 1)]));
    // A link state under the local identifier is held but not used.
    db.accept(link_state(1, 1, &[(77, 1)]));
    let routes = compute_routes(1, &peers, &db);
    assert_eq!(summary(&routes), vec![(2, 2, 1)]);
}

#[test]
fn recomputing_an_unchanged_graph_gives_the_same_table() {
    let mut peers = PeerTable::new();
    peers.add_connection(5, conn(1, 5, "udp", Some(30_000)));
    peers.add_connection(9, conn(1, 9, "wg", Some(10_000)));
    let mut db = LinkStateDb::new();
    db.accept(link_state(5, 1, &[(20, 1), (21, 2)]));
    db.accept(link_state(9, 1, &[(20, 1), (5, 1)]));
    db.accept(link_state(20, 4, &[(21, 1), (22, 9)]));
    let first = compute_routes(1, &peers, &db);
    let second = compute_routes(1, &peers, &db);
    assert_eq!(first, second);
    assert_eq!(
        summary(&first),
        vec![(5, 5, 1), (9, 9, 1), (20, 9, 2), (21, 9, 3), (22, 9, 11)]
    );
}

#[test]
fn delivery_order_across_origins_does_not_matter() {
    let batch_a = vec![
        link_state(5, 1, &[(20, 3)]),
        link_state(9, 1, &[(20, 1)]),
        link_state(5, 2, &[(20, 1)]),
        link_state(20, 1, &[(21, 1)]),
    ];
    let batch_b = vec![
        link_state(20, 1, &[(21, 1)]),
        link_state(5, 1, &[(20, 3)]),
        link_state(5, 2, &[(20, 1)]),
        link_state(9, 1, &[(20, 1)]),
    ];
    let mut tables = Vec::new();
    for batch in [batch_a, batch_b] {
        let mut peers = PeerTable::new();
        peers.add_connection(5, conn(1, 5, "udp", Some(10_000)));
        peers.add_connection(9, conn(1, 9, "udp", Some(10_000)));
        let mut db = LinkStateDb::new();
        for ls in batch {
            db.accept(ls);
        }
        tables.push(compute_routes(1, &peers, &db));
    }
    assert_eq!(tables[0], tables[1]);
    assert_eq!(summary(&tables[0]), vec![(5, 5, 1), (9, 9, 1), (20, 5, 2), (21, 5, 3)]);
}

#[test]
fn stale_link_state_is_not_used_but_kept() {
    let mut peers = PeerTable::new();
    peers.add_connection(2, conn(1, 2, "tcp", Some(1)));
    let mut db = LinkStateDb::new();
    db.accept(link_state(2, 5, &[(3, 1)]));
    assert_eq!(summary(&compute_routes(1, &peers, &db)), vec![(2, 2, 1), (3, 2, 2)]);
    db.miss_deadline(2);
    assert_eq!(db.status(2), NeighborState::Stale);
    let routes = compute_routes(1, &peers, &db);
    assert_eq!(summary(&routes), vec![(2, 2, 1)]);
    // What 2 advertised of itself is still known.
    assert_eq!(routes[0].hostname, "host-2");
    // The sequence number is remembered through the grace period.
    assert_eq!(db.accept(link_state(2, 5, &[(3, 1)])), Verdict::NotNewer);
    assert_eq!(db.accept(link_state(2, 6, &[(3, 1)])), Verdict::Accepted);
    assert_eq!(db.status(2), NeighborState::Synchronized);
    assert_eq!(summary(&compute_routes(1, &peers, &db)), vec![(2, 2, 1), (3, 2, 2)]);
}

#[test]
fn dead_connection_is_no_first_hop() {
    let mut peers = PeerTable::new();
    let mut c = conn(1, 2, "tcp", Some(1));
    c.alive = false;
    peers.add_connection(2, c);
    let db = LinkStateDb::new();
    assert_eq!(summary(&compute_routes(1, &peers, &db)), vec![]);
}

#[test]
fn route_without_advertisement_has_empty_description() {
    let mut peers = PeerTable::new();
    peers.add_connection(2, conn(1, 2, "tcp", Some(1)));
    let mut db = LinkStateDb::new();
    db.accept(link_state(2, 1, &[(3, 1)]));
    let routes = compute_routes(1, &peers, &db);
    let to_3 = &routes[1];
    assert_eq!(to_3.peer_id, 3);
    assert_eq!(to_3.hostname, "");
    assert_eq!(to_3.version, "");
    assert_eq!(to_3.ipv4_addr, None);
    assert_eq!(to_3.nat_type, NatType::Unknown);
    assert_eq!(to_3.path_latency_us, None);
    assert_eq!(to_3.loss_milli, None);
}

#[test]
fn largest_identifiers_and_costs() {
    let hops = vec![Hop { peer_id: u32::MAX, latency_us: Some(u64::MAX) }];
    let mut db = LinkStateDb::new();
    db.accept(link_state(u32::MAX, 1, &[(0, u32::MAX)]));
    db.accept(link_state(0, 1, &[(7, u32::MAX)]));
    let table = shortest_paths(1, &hops, &db);
    assert_eq!(
        table,
        vec![
            Reach {
                dest: 0,
                cost: 1 + u32::MAX as u64,
                next_hop: u32::MAX,
                hop_latency_us: Some(u64::MAX)
            },
            Reach {
                dest: 7,
                cost: 1 + 2 * (u32::MAX as u64),
                next_hop: u32::MAX,
                hop_latency_us: Some(u64::MAX)
            },
            Reach { dest: u32::MAX, cost: 1, next_hop: u32::MAX, hop_latency_us: Some(u64::MAX) },
        ]
    );
}

#[test]
fn hops_carry_the_latency_of_the_representing_connection() {
    let list = vec![
        PeerInfo {
            peer_id: 4,
            conns: vec![conn(1, 4, "tcp", Some(900)), conn(2, 4, "udp", Some(300))],
        },
        PeerInfo { peer_id: 6, conns: vec![conn(1, 6, "tcp", None)] },
        PeerInfo { peer_id: 4, conns: vec![] },
    ];
    assert_eq!(
        hops_from(&list),
        vec![
            Hop { peer_id: 4, latency_us: Some(300) },
            Hop { peer_id: 6, latency_us: None },
            Hop { peer_id: 4, latency_us: None },
        ]
    );
    assert_eq!(find_peer(&list, 4), Some(0));
    assert_eq!(find_peer(&list, 6), Some(1));
    assert_eq!(find_peer(&list, 5), None);
}

#[test]
fn route_for_one_reach() {
    let link = PeerInfo {
        peer_id: 4,
        conns: vec![conn(1, 4, "tcp", Some(900)), conn(2, 4, "udp", Some(300))],
    };
    let adv = link_state(9, 1, &[]);
    let far = Reach { dest: 9, cost: 4, next_hop: 4, hop_latency_us: Some(300) };
    let r = route_to(&far, &link, Some(&adv));
    assert_eq!(
        r,
        Route {
            peer_id: 9,
            next_hop_peer_id: 4,
            cost: 4,
            hostname: "host-9".to_string(),
            ipv4_addr: Some(Ipv4Inet { address: 0x0a00_0009, network_length: 24 }),
            version: "2.1.0".to_string(),
            nat_type: NatType::FullCone,
            path_latency_us: Some(7_009),
            loss_milli: Some(3),
            tunnel_protos: vec!["tcp".to_string(), "udp".to_string()],
        }
    );
    let near = Reach { dest: 4, cost: 1, next_hop: 4, hop_latency_us: Some(300) };
    let r = route_to(&near, &link, None);
    assert_eq!(r.path_latency_us, Some(300));
    assert_eq!(r.loss_milli, Some(0));
    assert_eq!(r.hostname, "");
}

#[test]
fn sorted_insertion_keeps_order_and_skips_repeats() {
    let mut ids: Vec<PeerId> = vec![];
    for id in [5, 1, 9, 5, 0, u32::MAX, 1, 7] {
        insert_sorted(&mut ids, id);
    }
    assert_eq!(ids, vec![0, 1, 5, 7, 9, u32::MAX]);
    assert_eq!(find_slot(&ids, 0), Some(0));
    assert_eq!(find_slot(&ids, 7), Some(3));
    assert_eq!(find_slot(&ids, u32::MAX), Some(5));
    assert_eq!(find_slot(&ids, 6), None);
    assert_eq!(find_slot(&vec![], 6), None);
}

#[test]
fn labels_compare_by_cost_then_latency_then_hop() {
    let l = |cost: u64, latency_us: Option<u64>, hop: PeerId| Label { cost, latency_us, hop };
    assert!(better(l(1, None, 9), l(2, Some(0), 0)));
    assert!(!better(l(2, Some(0), 0), l(1, None, 9)));
    assert!(better(l(2, Some(10), 9), l(2, Some(30), 0)));
    assert!(!better(l(2, Some(30), 0), l(2, Some(10), 9)));
    assert!(better(l(2, Some(u64::MAX), 9), l(2, None, 0)));
    assert!(!better(l(2, None, 0), l(2, Some(u64::MAX), 9)));
    assert!(better(l(2, Some(10), 3), l(2, Some(10), 4)));
    assert!(!better(l(2, Some(10), 4), l(2, Some(10), 3)));
    assert!(better(l(2, None, 3), l(2, None, 4)));
    assert!(!better(l(2, Some(10), 4), l(2, Some(10), 4)));
    assert!(!better(l(2, None, 4), l(2, None, 4)));
}

#[test]
fn identifiers_of_a_peer_list() {
    let list = vec![
        PeerInfo { peer_id: 4, conns: vec![] },
        PeerInfo { peer_id: 2, conns: vec![conn(1, 2, "tcp", None)] },
    ];
    assert_eq!(peer_ids(&list), vec![4, 2]);
    assert_eq!(peer_ids(&vec![]), vec![]);
}

#[test]
fn parallel_links_and_loops_in_the_graph() {
    // Two links 5 -> 20 of different cost, a link back to 5 and one to itself.
    let hops = vec![Hop { peer_id: 5, latency_us: Some(1) }];
    let mut db = LinkStateDb::new();
    db.accept(link_state(5, 1, &[(20, 7), (20, 2), (5, 1)]));
    db.accept(link_state(20, 1, &[(5, 1), (20, 1), (21, 1)]));
    let table = shortest_paths(1, &hops, &db);
    let seen: Vec<(PeerId, u64, PeerId)> = table.iter().map(|r| (r.dest, r.cost, r.next_hop)).collect();
    assert_eq!(seen, vec![(5, 1, 5), (20, 3, 5), (21, 4, 5)]);
}
