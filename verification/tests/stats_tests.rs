use easytier::model::{
    clone_conns, clone_texts, contains_text, Ipv4Inet, NatType, NodeInfo, PeerConnection, PeerId,
    PeerInfo, PeerRoutePair, Route,
};
use easytier::model::{LinkState, Neighbor};
use easytier::peer_manager::PeerManager;
use easytier::rpc::{first_peer, get_stats, list_peer_route_pair, routes_to};
use easytier::stats::{
    collect_items, cost_to_str, item_from_node, item_from_pair, nat_type_name, node_row,
    pair_row, pair_rx_bytes, pair_tx_bytes, PeerTableItem,
};
use easytier::text::{
    decimal_string, digit, join_texts, milli_string, push_decimal, push_dotted_quad, text_of,
};

fn conn(conn_id: u64, peer_id: PeerId, protocol: &str, latency_us: Option<u64>) -> PeerConnection {
    PeerConnection {
        conn_id,
        peer_id,
        protocol: protocol.to_string(),
        latency_us,
        loss_milli: 25,
        rx_bytes: 1_500,
        tx_bytes: 2_000_000,
        alive: true,
    }
}

fn route(peer_id: PeerId, cost: u64) -> Route {
    Route {
        peer_id,
        next_hop_peer_id: peer_id,
        cost,
        hostname: format!("host-{}", peer_id),
        ipv4_addr: Some(Ipv4Inet { address: 0x0a90_9000 + peer_id, network_length: 24 }),
        version: "2.1.0".to_string(),
        nat_type: NatType::PortRestricted,
        path_latency_us: Some(45_999),
        loss_milli: None,
        tunnel_protos: vec![],
    }
}

fn node(ipv4_addr: &str) -> NodeInfo {
    NodeInfo {
        peer_id: 4_000_000_000,
        hostname: "local".to_string(),
        ipv4_addr: ipv4_addr.to_string(),
        version: "2.1.0".to_string(),
        nat_type: Some(NatType::NoPat),
    }
}

#[test]
fn decimal_numbers() {
    assert_eq!(decimal_string(0), "0");
    assert_eq!(decimal_string(9), "9");
    assert_eq!(decimal_string(10), "10");
    assert_eq!(decimal_string(1_234_567_890), "1234567890");
    assert_eq!(decimal_string(u64::MAX), "18446744073709551615");
    let mut s = String::from("n=");
    push_decimal(&mut s, 407);
    assert_eq!(s, "n=407");
    assert_eq!(digit(0), '0');
    assert_eq!(digit(9), '9');
    assert_eq!(text_of("abc"), "abc");
}

#[test]
fn thousandths_have_three_decimals() {
    assert_eq!(milli_string(0), "0.000");
    assert_eq!(milli_string(5), "0.005");
    assert_eq!(milli_string(50), "0.050");
    assert_eq!(milli_string(999), "0.999");
    assert_eq!(milli_string(1_000), "1.000");
    assert_eq!(milli_string(12_345), "12.345");
    assert_eq!(milli_string(u64::MAX), "18446744073709551.615");
}

#[test]
fn dotted_quads() {
    let mut s = String::new();
    push_dotted_quad(&mut s, 0);
    assert_eq!(s, "0.0.0.0");
    let mut s = String::from("ip ");
    push_dotted_quad(&mut s, 0xc0a8_01fe);
    assert_eq!(s, "ip 192.168.1.254");
    let mut s = String::new();
    push_dotted_quad(&mut s, u32::MAX);
    assert_eq!(s, "255.255.255.255");
}

#[test]
fn joining_texts() {
    assert_eq!(join_texts(&vec![], ","), "");
    assert_eq!(join_texts(&vec!["tcp".to_string()], ","), "tcp");
    assert_eq!(join_texts(&vec!["tcp".to_string(), "udp".to_string(), "".to_string()], ", "), "tcp, udp, ");
    assert!(contains_text(&vec!["a".to_string(), "b".to_string()], &"b".to_string()));
    assert!(!contains_text(&vec!["a".to_string()], &"".to_string()));
    assert_eq!(clone_texts(&vec!["a".to_string(), "b".to_string()]), vec!["a", "b"]);
    let conns = vec![conn(1, 2, "tcp", None)];
    assert_eq!(clone_conns(&conns), conns);
}

#[test]
fn cost_column() {
    assert_eq!(cost_to_str(1), "p2p");
    assert_eq!(cost_to_str(2), "relay(2)");
    assert_eq!(cost_to_str(0), "relay(0)");
    assert_eq!(cost_to_str(137), "relay(137)");
}

#[test]
fn nat_type_names() {
    assert_eq!(nat_type_name(NatType::Unknown), "Unknown");
    assert_eq!(nat_type_name(NatType::OpenInternet), "OpenInternet");
    assert_eq!(nat_type_name(NatType::NoPat), "NoPAT");
    assert_eq!(nat_type_name(NatType::FullCone), "FullCone");
    assert_eq!(nat_type_name(NatType::Restricted), "Restricted");
    assert_eq!(nat_type_name(NatType::PortRestricted), "PortRestricted");
    assert_eq!(nat_type_name(NatType::Symmetric), "Symmetric");
    assert_eq!(nat_type_name(NatType::SymUdpFirewall), "SymUdpFirewall");
    assert_eq!(nat_type_name(NatType::SymmetricEasyInc), "SymmetricEasyInc");
    assert_eq!(nat_type_name(NatType::SymmetricEasyDec), "SymmetricEasyDec");
}

#[test]
fn row_of_the_local_node() {
    let item = item_from_node(&node("10.144.144.1/24"));
    assert_eq!(
        item,
        PeerTableItem {
            cidr: "10.144.144.1/24".to_string(),
            ipv4: "10.144.144.1".to_string(),
            hostname: "local".to_string(),
            cost: "Local".to_string(),
            lat_ms: "-".to_string(),
            loss_rate: "-".to_string(),
            rx_bytes: "-".to_string(),
            tx_bytes: "-".to_string(),
            tunnel_proto: "-".to_string(),
            nat_type: "NoPAT".to_string(),
            id: "4000000000".to_string(),
            version: "2.1.0".to_string(),
        }
    );
}

#[test]
fn local_node_without_a_readable_address() {
    let item = item_from_node(&node(""));
    assert_eq!(item.cidr, "");
    assert_eq!(item.ipv4, "");
    let item = item_from_node(&node("10.0.0.300/24"));
    assert_eq!(item.cidr, "10.0.0.300/24");
    assert_eq!(item.ipv4, "");
    let item = item_from_node(&node("10.0.0.3/33"));
    assert_eq!(item.ipv4, "");
    // An address without a prefix length is read as a host address.
    let item = item_from_node(&node("172.16.0.9"));
    assert_eq!(item.ipv4, "172.16.0.9");
    let mut info = node("");
    info.nat_type = None;
    assert_eq!(item_from_node(&info).nat_type, "Unknown");
    assert_eq!(node_row(&info, Some((0x7f00_0001, 8))).ipv4, "127.0.0.1");
    assert_eq!(node_row(&info, None).ipv4, "");
}

#[test]
fn row_of_a_direct_peer() {
    let pair = PeerRoutePair {
        route: Some(route(7, 1)),
        peer: Some(PeerInfo {
            peer_id: 7,
            conns: vec![conn(1, 7, "tcp", Some(12_345)), conn(2, 7, "udp", Some(40_000))],
        }),
    };
    let item = item_from_pair(&pair);
    assert_eq!(
        item,
        PeerTableItem {
            cidr: "10.144.144.7/24".to_string(),
            ipv4: "10.144.144.7".to_string(),
            hostname: "host-7".to_string(),
            cost: "p2p".to_string(),
            lat_ms: "12.345".to_string(),
            loss_rate: "0.025".to_string(),
            rx_bytes: "3 kB".to_string(),
            tx_bytes: "4 MB".to_string(),
            tunnel_proto: "tcp,udp".to_string(),
            nat_type: "PortRestricted".to_string(),
            id: "7".to_string(),
            version: "2.1.0".to_string(),
        }
    );
    assert_eq!(pair_rx_bytes(&pair), 3_000);
    assert_eq!(pair_tx_bytes(&pair), 4_000_000);
}

#[test]
fn byte_counts_are_written_in_decimal_units() {
    let row = |rx: u64| {
        let mut c = conn(1, 7, "tcp", None);
        c.rx_bytes = rx;
        item_from_pair(&PeerRoutePair {
            route: Some(route(7, 1)),
            peer: Some(PeerInfo { peer_id: 7, conns: vec![c] }),
        })
        .rx_bytes
    };
    assert_eq!(row(0), "0 B");
    assert_eq!(row(999), "999 B");
    assert_eq!(row(1_000), "1 kB");
    assert_eq!(row(1_500), "1.50 kB");
    assert_eq!(row(1_234_567), "1.23 MB");
    assert_eq!(row(u64::MAX), "18.45 EB");
}

#[test]
fn row_of_a_relayed_peer() {
    let pair = PeerRoutePair { route: Some(route(9, 3)), peer: None };
    let item = item_from_pair(&pair);
    assert_eq!(item.cost, "relay(3)");
    // Whole milliseconds of the path estimate.
    assert_eq!(item.lat_ms, "45");
    assert_eq!(item.loss_rate, "0.000");
    assert_eq!(item.rx_bytes, "0 B");
    assert_eq!(item.tx_bytes, "0 B");
    assert_eq!(item.tunnel_proto, "");
    assert_eq!(item.id, "9");
    assert_eq!(pair_rx_bytes(&pair), 0);
    let mut r = route(9, 3);
    r.path_latency_us = None;
    r.version = String::new();
    r.ipv4_addr = None;
    let item = item_from_pair(&PeerRoutePair { route: Some(r), peer: None });
    assert_eq!(item.lat_ms, "0");
    assert_eq!(item.version, "unknown");
    assert_eq!(item.cidr, "");
    assert_eq!(item.ipv4, "");
}

#[test]
fn row_of_a_peer_without_a_route() {
    let pair = PeerRoutePair {
        route: None,
        peer: Some(PeerInfo { peer_id: 7, conns: vec![conn(1, 7, "wg", Some(2_000))] }),
    };
    let item = pair_row(&pair, "rx".to_string(), "tx".to_string());
    assert_eq!(
        item,
        PeerTableItem {
            cidr: "".to_string(),
            ipv4: "".to_string(),
            hostname: "".to_string(),
            cost: "relay(0)".to_string(),
            lat_ms: "0".to_string(),
            loss_rate: "0.025".to_string(),
            rx_bytes: "rx".to_string(),
            tx_bytes: "tx".to_string(),
            tunnel_proto: "wg".to_string(),
            nat_type: "Unknown".to_string(),
            id: "0".to_string(),
            version: "unknown".to_string(),
        }
    );
    let blank = Route::blank();
    assert_eq!(blank.peer_id, 0);
    assert_eq!(blank.cost, 0);
    assert_eq!(blank.hostname, "");
}

#[test]
fn direct_peer_with_unmeasured_latency_shows_zero() {
    let pair = PeerRoutePair {
        route: Some(route(7, 1)),
        peer: Some(PeerInfo { peer_id: 7, conns: vec![conn(1, 7, "tcp", None)] }),
    };
    assert_eq!(item_from_pair(&pair).lat_ms, "0.000");
}

#[test]
fn join_keeps_neighbors_without_route() {
    let peers = vec![
        PeerInfo { peer_id: 5, conns: vec![conn(1, 5, "tcp", None)] },
        PeerInfo { peer_id: 2, conns: vec![conn(1, 2, "udp", None)] },
        PeerInfo { peer_id: 8, conns: vec![conn(3, 8, "wg", None)] },
    ];
    let routes = vec![route(2, 1), route(6, 2)];
    let pairs = list_peer_route_pair(peers.clone(), routes.clone());
    assert_eq!(
        pairs,
        vec![
            PeerRoutePair { route: Some(route(2, 1)), peer: Some(peers[1].clone()) },
            PeerRoutePair { route: Some(route(6, 2)), peer: None },
            PeerRoutePair { route: None, peer: Some(peers[0].clone()) },
            PeerRoutePair { route: None, peer: Some(peers[2].clone()) },
        ]
    );
    // Every neighbour exactly once.
    for p in &peers {
        let n = pairs.iter().filter(|pair| pair.peer.as_ref().map(|q| q.peer_id) == Some(p.peer_id)).count();
        assert_eq!(n, 1);
    }
    assert!(routes_to(&routes, 6));
    assert!(!routes_to(&routes, 5));
    assert_eq!(first_peer(&peers, 8), Some(peers[2].clone()));
    assert_eq!(first_peer(&peers, 9), None);
}

#[test]
fn join_of_nothing() {
    assert_eq!(list_peer_route_pair(vec![], vec![]), vec![]);
    assert_eq!(list_peer_route_pair(vec![], vec![route(2, 1)]).len(), 1);
}

#[test]
fn report_lists_the_local_node_first() {
    let pairs = vec![
        PeerRoutePair { route: Some(route(2, 1)), peer: None },
        PeerRoutePair { route: Some(route(3, 2)), peer: None },
    ];
    let items = collect_items(&node("10.0.0.1/8"), &pairs, false);
    let ids: Vec<&str> = items.iter().map(|i| i.id.as_str()).collect();
    assert_eq!(ids, vec!["4000000000", "2", "3"]);
    assert_eq!(items[0].cost, "Local");
    let stopped = collect_items(&node("10.0.0.1/8"), &pairs, true);
    assert_eq!(stopped.len(), 1);
    assert_eq!(stopped[0].id, "4000000000");
}

#[test]
fn status_report_of_a_manager() {
    assert_eq!(get_stats(None, false), None);
    let mut mgr = PeerManager::new(node("10.144.144.1/24"));
    let fresh = get_stats(Some(&mgr), false).unwrap();
    assert_eq!(fresh.len(), 1);
    assert_eq!(fresh[0].ipv4, "10.144.144.1");
    mgr.add_connection(2, conn(1, 2, "tcp", Some(1_500)));
    mgr.add_connection(3, conn(1, 3, "udp", Some(9_000)));
    // Before the routes are computed the neighbours show without a route.
    let early = get_stats(Some(&mgr), false).unwrap();
    assert_eq!(early.iter().map(|i| i.cost.as_str()).collect::<Vec<_>>(), vec!["Local", "relay(0)", "relay(0)"]);
    mgr.handle_link_state(LinkState {
        origin: 2,
        seq: 1,
        neighbors: vec![Neighbor { peer_id: 9, cost: 1 }],
        hostname: "two".to_string(),
        ipv4_addr: Some(Ipv4Inet { address: 0x0a90_9002, network_length: 24 }),
        version: String::new(),
        nat_type: NatType::OpenInternet,
        latency_us: None,
        loss_milli: None,
    });
    mgr.recompute();
    let items = get_stats(Some(&mgr), false).unwrap();
    let seen: Vec<(&str, &str, &str, &str)> = items
        .iter()
        .map(|i| (i.id.as_str(), i.cost.as_str(), i.lat_ms.as_str(), i.hostname.as_str()))
        .collect();
    assert_eq!(
        seen,
        vec![
            ("4000000000", "Local", "-", "local"),
            ("2", "p2p", "1.500", "two"),
            ("3", "p2p", "9.000", ""),
            ("9", "relay(2)", "0", ""),
        ]
    );
    assert_eq!(items[1].cidr, "10.144.144.2/24");
    assert_eq!(items[1].nat_type, "OpenInternet");
    assert_eq!(items[1].version, "unknown");
    assert_eq!(items[1].rx_bytes, "1.50 kB");
    assert_eq!(items[1].tx_bytes, "2 MB");
    assert_eq!(get_stats(Some(&mgr), true).unwrap().len(), 1);
}
