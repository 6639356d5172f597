use easytier::model::{NodeInfo, PeerConnection, PeerId, PeerInfo};
use easytier::peer_manager::PeerManager;
use easytier::peer_table::{conns_to, contains_peer, group_by_peer, PeerTable};
use easytier::rpc::{list_peers, QueryError};

fn conn(conn_id: u64, peer_id: PeerId, protocol: &str, latency_us: Option<u64>) -> PeerConnection {
    PeerConnection {
        conn_id,
        peer_id,
        protocol: protocol.to_string(),
        latency_us,
        loss_milli: 12,
        rx_bytes: 100,
        tx_bytes: 200,
        alive: true,
    }
}

fn keys(list: &[PeerInfo]) -> Vec<(PeerId, Vec<u64>)> {
    list.iter().map(|p| (p.peer_id, p.conns.iter().map(|c| c.conn_id).collect())).collect()
}

#[test]
fn new_table_is_empty() {
    let table = PeerTable::new();
    assert_eq!(table.snapshot(), vec![]);
    assert_eq!(table.list_peers(), vec![]);
}

#[test]
fn parallel_connections_to_one_peer_are_all_kept() {
    let mut table = PeerTable::new();
    table.add_connection(7, conn(1, 7, "tcp", Some(900)));
    table.add_connection(7, conn(2, 7, "udp", Some(300)));
    table.add_connection(8, conn(1, 8, "tcp", None));
    assert_eq!(keys(&table.list_peers()), vec![(7, vec![1, 2]), (8, vec![1])]);
}

#[test]
fn connection_is_filed_under_the_peer_given() {
    let mut table = PeerTable::new();
    table.add_connection(7, conn(1, 99, "tcp", None));
    let list = table.list_peers();
    assert_eq!(keys(&list), vec![(7, vec![1])]);
    assert_eq!(list[0].conns[0].peer_id, 7);
    assert_eq!(list[0].conns[0].protocol, "tcp");
    assert_eq!(list[0].conns[0].rx_bytes, 100);
}

#[test]
fn registering_the_same_identifier_again_replaces_and_moves_last() {
    let mut table = PeerTable::new();
    table.add_connection(7, conn(1, 7, "tcp", Some(900)));
    table.add_connection(7, conn(2, 7, "udp", Some(300)));
    table.add_connection(7, conn(1, 7, "quic", Some(100)));
    let snap = table.snapshot();
    let seen: Vec<(u64, &str)> = snap.iter().map(|c| (c.conn_id, c.protocol.as_str())).collect();
    assert_eq!(seen, vec![(2, "udp"), (1, "quic")]);
}

#[test]
fn remove_takes_only_the_connection_named() {
    let mut table = PeerTable::new();
    table.add_connection(7, conn(1, 7, "tcp", None));
    table.add_connection(7, conn(2, 7, "udp", None));
    table.add_connection(8, conn(1, 8, "tcp", None));
    assert!(table.remove_connection(7, 1));
    assert_eq!(keys(&table.list_peers()), vec![(7, vec![2]), (8, vec![1])]);
    assert!(!table.remove_connection(7, 1));
    assert!(!table.remove_connection(9, 1));
    assert_eq!(keys(&table.list_peers()), vec![(7, vec![2]), (8, vec![1])]);
}

#[test]
fn peer_without_connections_is_no_neighbor() {
    let mut table = PeerTable::new();
    table.add_connection(7, conn(1, 7, "tcp", None));
    table.add_connection(8, conn(1, 8, "tcp", None));
    assert!(table.remove_connection(7, 1));
    assert_eq!(keys(&table.list_peers()), vec![(8, vec![1])]);
}

#[test]
fn snapshot_and_list_hold_live_connections_only() {
    let mut table = PeerTable::new();
    let mut dead = conn(1, 7, "tcp", None);
    dead.alive = false;
    table.add_connection(7, dead);
    table.add_connection(7, conn(2, 7, "udp", None));
    let mut dead_too = conn(1, 8, "tcp", None);
    dead_too.alive = false;
    table.add_connection(8, dead_too);
    assert_eq!(table.snapshot().iter().map(|c| (c.peer_id, c.conn_id)).collect::<Vec<_>>(), vec![(7, 2)]);
    assert_eq!(keys(&table.list_peers()), vec![(7, vec![2])]);
}

#[test]
fn list_reflects_a_sequence_of_calls() {
    let mut table = PeerTable::new();
    table.add_connection(1, conn(1, 1, "a", None));
    table.add_connection(2, conn(1, 2, "b", None));
    table.remove_connection(1, 1);
    table.add_connection(1, conn(2, 1, "c", None));
    table.add_connection(3, conn(5, 3, "d", None));
    table.remove_connection(3, 4);
    table.remove_connection(2, 1);
    table.add_connection(3, conn(6, 3, "e", None));
    assert_eq!(keys(&table.list_peers()), vec![(1, vec![2]), (3, vec![5, 6])]);
}

#[test]
fn neighbors_come_in_order_of_first_connection() {
    let conns = vec![
        conn(1, 9, "a", None),
        conn(1, 3, "a", None),
        conn(2, 9, "a", None),
        conn(1, 5, "a", None),
    ];
    assert_eq!(keys(&group_by_peer(&conns)), vec![(9, vec![1, 2]), (3, vec![1]), (5, vec![1])]);
    assert_eq!(conns_to(&conns, 9).len(), 2);
    assert_eq!(conns_to(&conns, 4).len(), 0);
    assert!(contains_peer(&vec![4, 5], 5));
    assert!(!contains_peer(&vec![4, 5], 6));
}

#[test]
fn preferred_connection_has_lowest_latency_then_is_youngest() {
    let peer = PeerInfo {
        peer_id: 7,
        conns: vec![
            conn(1, 7, "tcp", Some(300)),
            conn(2, 7, "udp", None),
            conn(3, 7, "wg", Some(200)),
            conn(4, 7, "quic", Some(200)),
            conn(5, 7, "ws", Some(250)),
        ],
    };
    assert_eq!(peer.preferred_index(), Some(3));
    assert_eq!(peer.latency_us(), Some(200));
    assert_eq!(peer.loss_milli(), Some(12));
    let unmeasured = PeerInfo { peer_id: 7, conns: vec![conn(1, 7, "tcp", None), conn(2, 7, "udp", None)] };
    assert_eq!(unmeasured.preferred_index(), Some(1));
    assert_eq!(unmeasured.latency_us(), None);
    let nobody = PeerInfo { peer_id: 7, conns: vec![] };
    assert_eq!(nobody.preferred_index(), None);
    assert_eq!(nobody.latency_us(), None);
    assert_eq!(nobody.loss_milli(), None);
}

#[test]
fn byte_counts_add_up_and_stop_at_the_largest_value() {
    let mut a = conn(1, 7, "tcp", None);
    a.rx_bytes = 10;
    a.tx_bytes = u64::MAX - 1;
    let mut b = conn(2, 7, "udp", None);
    b.rx_bytes = 32;
    b.tx_bytes = 5;
    let peer = PeerInfo { peer_id: 7, conns: vec![a, b] };
    assert_eq!(peer.rx_bytes(), 42);
    assert_eq!(peer.tx_bytes(), u64::MAX);
}

#[test]
fn protocols_are_listed_once_each() {
    let peer = PeerInfo {
        peer_id: 7,
        conns: vec![
            conn(1, 7, "tcp", None),
            conn(2, 7, "udp", None),
            conn(3, 7, "tcp", None),
            conn(4, 7, "wg", None),
        ],
    };
    assert_eq!(peer.protocols(), vec!["tcp".to_string(), "udp".to_string(), "wg".to_string()]);
}

#[test]
fn list_peers_query_tells_not_ready_from_empty() {
    let mgr = PeerManager::new(NodeInfo {
        peer_id: 1,
        hostname: String::new(),
        ipv4_addr: String::new(),
        version: String::new(),
        nat_type: None,
    });
    assert_eq!(list_peers(Some(&mgr)), Ok(vec![]));
    assert_eq!(list_peers(None), Err(QueryError::NotReady));
}

#[test]
fn update_keeps_the_place_of_the_connection() {
    let mut table = PeerTable::new();
    table.add_connection(7, conn(1, 7, "tcp", Some(900)));
    table.add_connection(7, conn(2, 7, "udp", Some(300)));
    let mut report = conn(1, 0, "tcp", Some(100));
    report.rx_bytes = 5_000;
    assert!(table.update_connection(7, report));
    let snap = table.snapshot();
    let seen: Vec<(u64, PeerId, Option<u64>, u64)> =
        snap.iter().map(|c| (c.conn_id, c.peer_id, c.latency_us, c.rx_bytes)).collect();
    assert_eq!(seen, vec![(1, 7, Some(100), 5_000), (2, 7, Some(300), 100)]);
    // Of two connections with the same latency the younger one represents
    // the peer: the update did not make the first one younger.
    let mut tie = conn(1, 7, "tcp", Some(300));
    tie.loss_milli = 999;
    assert!(table.update_connection(7, tie));
    assert_eq!(table.list_peers()[0].loss_milli(), Some(12));
    assert!(!table.update_connection(7, conn(3, 7, "tcp", None)));
    assert!(!table.update_connection(8, conn(1, 8, "tcp", None)));
    assert_eq!(keys(&table.list_peers()), vec![(7, vec![1, 2])]);
}

#[test]
fn connection_reported_dead_leaves_the_list() {
    let mut mgr = PeerManager::new(NodeInfo {
        peer_id: 1,
        hostname: String::new(),
        ipv4_addr: String::new(),
        version: String::new(),
        nat_type: None,
    });
    mgr.add_connection(7, conn(1, 7, "tcp", Some(900)));
    mgr.recompute();
    assert_eq!(mgr.list_routes().len(), 1);
    let mut dead = conn(1, 7, "tcp", Some(900));
    dead.alive = false;
    assert!(mgr.update_connection(7, dead));
    assert_eq!(mgr.list_peers(), vec![]);
    assert!(mgr.recompute());
    assert_eq!(mgr.list_routes().len(), 0);
    assert!(!mgr.update_connection(9, conn(1, 9, "tcp", None)));
    assert!(!mgr.recompute());
}
