//! The rows of the status report: one for the local node, one for each peer,
//! every column as text.

use crate::model::{
    capped, distinct_texts, Ipv4Inet, measured_latency, measured_loss, NatType, NodeInfo,
    PeerRoutePair, protocol_names, Route, total_rx, total_tx,
};
use crate::text::{
    decimal, decimal_string, dotted_quad, join_texts, joined, milli_string, milli_text, push_char,
    push_decimal, push_dotted_quad, push_text, text_of,
};
use std::str::FromStr;
use vstd::prelude::*;

verus! {

/// One row of the status report.
#[derive(Debug, PartialEq, Eq)]
pub struct PeerTableItem {
    /// Overlay address with prefix length.
    pub cidr: String,
    /// Overlay address alone.
    pub ipv4: String,
    pub hostname: String,
    pub cost: String,
    pub lat_ms: String,
    pub loss_rate: String,
    pub rx_bytes: String,
    pub tx_bytes: String,
    pub tunnel_proto: String,
    pub nat_type: String,
    pub id: String,
    pub version: String,
}

/// The text that `humansize::format_size` gives for a number of bytes with
/// the options `humansize::DECIMAL`.
pub uninterp spec fn decimal_size_text(bytes: u64) -> Seq<char>;

/// The address and prefix length that `cidr::Ipv4Inet::from_str` reads from
/// a text, or nothing where it rejects the text.
pub uninterp spec fn parsed_inet(text: Seq<char>) -> Option<(u32, u8)>;

/// Calls `humansize::format_size` with the options `humansize::DECIMAL`.
/// The call formats its argument and nothing else, so the result is the
/// named text of `bytes`.
#[verifier::external_body]
fn size_string(bytes: u64) -> (s: String)
    ensures
        s@ == decimal_size_text(bytes),
{
    humansize::format_size(bytes, humansize::DECIMAL)
}

/// Calls `cidr::Ipv4Inet::from_str`. The parser reads its argument and
/// nothing else; where it accepts, the address comes back as a number, most
/// significant byte first, beside the prefix length.
#[verifier::external_body]
pub(crate) fn parse_inet(text: &str) -> (r: Option<(u32, u8)>)
    ensures
        r == parsed_inet(text@),
{
    match cidr::Ipv4Inet::from_str(text) {
        Ok(inet) => Some((u32::from(inet.address()), inet.network_length())),
        Err(_) => None,
    }
}

/// The name under which a NAT type is shown.
pub open spec fn nat_type_text(kind: NatType) -> Seq<char> {
    match kind {
        NatType::Unknown => "Unknown"@,
        NatType::OpenInternet => "OpenInternet"@,
        NatType::NoPat => "NoPAT"@,
        NatType::FullCone => "FullCone"@,
        NatType::Restricted => "Restricted"@,
        NatType::PortRestricted => "PortRestricted"@,
        NatType::Symmetric => "Symmetric"@,
        NatType::SymUdpFirewall => "SymUdpFirewall"@,
        NatType::SymmetricEasyInc => "SymmetricEasyInc"@,
        NatType::SymmetricEasyDec => "SymmetricEasyDec"@,
    }
}

/// The name under which a NAT type is shown.
pub fn nat_type_name(kind: NatType) -> (s: String)
    ensures
        s@ == nat_type_text(kind),
{
    match kind {
        NatType::Unknown => text_of("Unknown"),
        NatType::OpenInternet => text_of("OpenInternet"),
        NatType::NoPat => text_of("NoPAT"),
        NatType::FullCone => text_of("FullCone"),
        NatType::Restricted => text_of("Restricted"),
        NatType::PortRestricted => text_of("PortRestricted"),
        NatType::Symmetric => text_of("Symmetric"),
        NatType::SymUdpFirewall => text_of("SymUdpFirewall"),
        NatType::SymmetricEasyInc => text_of("SymmetricEasyInc"),
        NatType::SymmetricEasyDec => text_of("SymmetricEasyDec"),
    }
}

/// How a path cost is shown: a direct link by name, any other cost as a
/// relay with the cost in brackets.
pub open spec fn cost_text(cost: u64) -> Seq<char> {
    if cost == 1 {
        "p2p"@
    } else {
        "relay("@ + decimal(cost as nat) + ")"@
    }
}

/// How a path cost is shown.
pub fn cost_to_str(cost: u64) -> (s: String)
    ensures
        s@ == cost_text(cost),
{
    if cost == 1 {
        text_of("p2p")
    } else {
        let mut s = text_of("relay(");
        push_decimal(&mut s, cost);
        push_text(&mut s, ")");
        s
    }
}

/// An overlay address with its prefix length, or nothing where none is
/// assigned.
pub open spec fn cidr_text(addr: Option<Ipv4Inet>) -> Seq<char> {
    match addr {
        Some(a) => dotted_quad(a.address) + seq!['/'] + decimal(a.network_length as nat),
        None => Seq::empty(),
    }
}

/// An overlay address without its prefix length, or nothing where none is
/// assigned.
pub open spec fn address_text(addr: Option<Ipv4Inet>) -> Seq<char> {
    match addr {
        Some(a) => dotted_quad(a.address),
        None => Seq::empty(),
    }
}

/// A version as shown: the word `unknown` where none was advertised.
pub open spec fn version_text(version: Seq<char>) -> Seq<char> {
    if version.len() == 0 {
        "unknown"@
    } else {
        version
    }
}

/// The latency column: for a direct link the measured latency in
/// milliseconds with three decimals, for any other route the whole
/// milliseconds of the path estimate. A missing value counts as zero.
pub open spec fn latency_text(
    cost: u64,
    path_latency_us: Option<u64>,
    measured: Option<u64>,
) -> Seq<char> {
    if cost == 1 {
        milli_text(
            match measured {
                Some(us) => us as nat,
                None => 0,
            },
        )
    } else {
        decimal(
            match path_latency_us {
                Some(us) => (us / 1000) as nat,
                None => 0,
            },
        )
    }
}

/// The connections of the peer side of a pair; none where the peer is not a
/// direct neighbour.
pub open spec fn pair_conns(pair: &PeerRoutePair) -> Seq<crate::model::PeerConnection> {
    match pair.peer {
        Some(p) => p.conns@,
        None => Seq::empty(),
    }
}

/// Whether `item` is the row of a peer with the route `route` and the
/// connections `pair_conns(pair)`, given the two texts for the byte counts.
pub open spec fn is_pair_row(
    route: &Route,
    pair: &PeerRoutePair,
    rx_text: Seq<char>,
    tx_text: Seq<char>,
    item: &PeerTableItem,
) -> bool {
    let conns = pair_conns(pair);
    &&& item.cidr@ == cidr_text(route.ipv4_addr)
    &&& item.ipv4@ == address_text(route.ipv4_addr)
    &&& item.hostname@ == route.hostname@
    &&& item.cost@ == cost_text(route.cost)
    &&& item.lat_ms@ == latency_text(route.cost, route.path_latency_us, measured_latency(conns))
    &&& item.loss_rate@ == milli_text(
        match measured_loss(conns) {
            Some(l) => l as nat,
            None => 0,
        },
    )
    &&& item.rx_bytes@ == rx_text
    &&& item.tx_bytes@ == tx_text
    &&& item.tunnel_proto@ == joined(distinct_texts(protocol_names(conns)), ","@)
    &&& item.nat_type@ == nat_type_text(route.nat_type)
    &&& item.id@ == decimal(route.peer_id as nat)
    &&& item.version@ == version_text(route.version@)
}

/// The bytes received from the peer of a pair over all its connections.
pub fn pair_rx_bytes(pair: &PeerRoutePair) -> (r: u64)
    ensures
        r == capped(total_rx(pair_conns(pair))),
{
    match &pair.peer {
        Some(p) => p.rx_bytes(),
        None => 0,
    }
}

/// The bytes sent to the peer of a pair over all its connections.
pub fn pair_tx_bytes(pair: &PeerRoutePair) -> (r: u64)
    ensures
        r == capped(total_tx(pair_conns(pair))),
{
    match &pair.peer {
        Some(p) => p.tx_bytes(),
        None => 0,
    }
}

/// The row of one peer, from its route and its connections and from the two
/// texts that stand for its byte counts. A pair without a route is shown
/// with the blank route.
pub fn pair_row(pair: &PeerRoutePair, rx_text: String, tx_text: String) -> (item: PeerTableItem)
    ensures
        pair.route matches Some(r) ==> is_pair_row(&r, pair, rx_text@, tx_text@, &item),
        pair.route is None ==> forall|b: Route|
            b.is_blank() ==> is_pair_row(&b, pair, rx_text@, tx_text@, &item),
{
    let blank = Route::blank();
    let route: &Route = match &pair.route {
        Some(r) => r,
        None => &blank,
    };
    let mut cidr = String::new();
    let mut ipv4 = String::new();
    if let Some(a) = route.ipv4_addr {
        push_dotted_quad(&mut cidr, a.address);
        push_char(&mut cidr, '/');
        push_decimal(&mut cidr, a.network_length as u64);
        push_dotted_quad(&mut ipv4, a.address);
        proof {
            assert(cidr@ =~= cidr_text(route.ipv4_addr));
            assert(ipv4@ =~= address_text(route.ipv4_addr));
        }
    }
    let (measured, loss, protos): (Option<u64>, Option<u32>, Vec<String>) = match &pair.peer {
        Some(p) => (p.latency_us(), p.loss_milli(), p.protocols()),
        None => (None, None, Vec::new()),
    };
    proof {
        if pair.peer is None {
            assert(crate::text::texts_of(protos@) =~= distinct_texts(
                protocol_names(pair_conns(pair)),
            ));
        }
    }
    let lat_ms = if route.cost == 1 {
        milli_string(
            match measured {
                Some(us) => us,
                None => 0,
            },
        )
    } else {
        decimal_string(
            match route.path_latency_us {
                Some(us) => us / 1000,
                None => 0,
            },
        )
    };
    let loss_rate = milli_string(
        match loss {
            Some(l) => l as u64,
            None => 0,
        },
    );
    let version = if route.version.as_str().is_empty() {
        text_of("unknown")
    } else {
        route.version.clone()
    };
    PeerTableItem {
        cidr,
        ipv4,
        hostname: route.hostname.clone(),
        cost: cost_to_str(route.cost),
        lat_ms,
        loss_rate,
        rx_bytes: rx_text,
        tx_bytes: tx_text,
        tunnel_proto: join_texts(&protos, ","),
        nat_type: nat_type_name(route.nat_type),
        id: decimal_string(route.peer_id as u64),
        version,
    }
}

/// Whether `item` is the row of the peer of `pair`: the row of its route, or
/// of the blank route where it has none, with the byte counts as
/// `humansize` writes them.
pub open spec fn is_peer_item(pair: &PeerRoutePair, item: &PeerTableItem) -> bool {
    let rx = decimal_size_text(capped(total_rx(pair_conns(pair))));
    let tx = decimal_size_text(capped(total_tx(pair_conns(pair))));
    match pair.route {
        Some(r) => is_pair_row(&r, pair, rx, tx, item),
        None => forall|b: Route| b.is_blank() ==> is_pair_row(&b, pair, rx, tx, item),
    }
}

/// The row of one peer.
pub fn item_from_pair(pair: &PeerRoutePair) -> (item: PeerTableItem)
    ensures
        is_peer_item(pair, &item),
{
    let rx_text = size_string(pair_rx_bytes(pair));
    let tx_text = size_string(pair_tx_bytes(pair));
    pair_row(pair, rx_text, tx_text)
}

/// Whether `item` is the row of the local node `info`, given what the
/// address parser made of its overlay address.
pub open spec fn is_node_row(
    info: &NodeInfo,
    parsed: Option<(u32, u8)>,
    item: &PeerTableItem,
) -> bool {
    &&& item.cidr@ == info.ipv4_addr@
    &&& item.ipv4@ == match parsed {
        Some(p) => dotted_quad(p.0),
        None => Seq::empty(),
    }
    &&& item.hostname@ == info.hostname@
    &&& item.cost@ == "Local"@
    &&& item.lat_ms@ == "-"@
    &&& item.loss_rate@ == "-"@
    &&& item.rx_bytes@ == "-"@
    &&& item.tx_bytes@ == "-"@
    &&& item.tunnel_proto@ == "-"@
    &&& item.nat_type@ == match info.nat_type {
        Some(k) => nat_type_text(k),
        None => "Unknown"@,
    }
    &&& item.id@ == decimal(info.peer_id as nat)
    &&& item.version@ == info.version@
}

/// The row of the local node, from its description and from what the
/// address parser made of its overlay address.
pub fn node_row(info: &NodeInfo, parsed: Option<(u32, u8)>) -> (item: PeerTableItem)
    ensures
        is_node_row(info, parsed, &item),
{
    let mut ipv4 = String::new();
    if let Some(p) = parsed {
        push_dotted_quad(&mut ipv4, p.0);
        proof {
            assert(ipv4@ =~= dotted_quad(p.0));
        }
    }
    let nat_type = match info.nat_type {
        Some(k) => nat_type_name(k),
        None => text_of("Unknown"),
    };
    PeerTableItem {
        cidr: info.ipv4_addr.clone(),
        ipv4,
        hostname: info.hostname.clone(),
        cost: text_of("Local"),
        lat_ms: text_of("-"),
        loss_rate: text_of("-"),
        rx_bytes: text_of("-"),
        tx_bytes: text_of("-"),
        tunnel_proto: text_of("-"),
        nat_type,
        id: decimal_string(info.peer_id as u64),
        version: info.version.clone(),
    }
}

/// The row of the local node.
pub fn item_from_node(info: &NodeInfo) -> (item: PeerTableItem)
    ensures
        is_node_row(info, parsed_inet(info.ipv4_addr@), &item),
{
    let parsed = parse_inet(info.ipv4_addr.as_str());
    node_row(info, parsed)
}

/// Whether `items` are the rows for the node `info` and the pairs `pairs`:
/// the local node first, then one row for each pair, or the local node alone
/// once the node has been told to stop.
pub open spec fn is_report(
    info: &NodeInfo,
    pairs: Seq<PeerRoutePair>,
    cancelled: bool,
    items: Seq<PeerTableItem>,
) -> bool {
    &&& items.len() == if cancelled {
        1
    } else {
        1 + pairs.len()
    }
    &&& is_node_row(info, parsed_inet(info.ipv4_addr@), &items[0])
    &&& !cancelled ==> forall|i: int|
        0 <= i < pairs.len() ==> is_peer_item(&pairs[i], #[trigger] &items[i + 1])
}

/// The rows of the status report: the local node first, then one row for
/// each pair in order. Once the node has been told to stop, only the local
/// node is reported.
pub fn collect_items(
    info: &NodeInfo,
    pairs: &Vec<PeerRoutePair>,
    cancelled: bool,
) -> (items: Vec<PeerTableItem>)
    ensures
        is_report(info, pairs@, cancelled, items@),
{
    let mut items: Vec<PeerTableItem> = Vec::new();
    items.push(item_from_node(info));
    if !cancelled {
        let mut i: usize = 0;
        while i < pairs.len()
            invariant
                i <= pairs.len(),
                items@.len() == 1 + i,
                is_node_row(info, parsed_inet(info.ipv4_addr@), &items@[0]),
                forall|j: int| 0 <= j < i ==> is_peer_item(&pairs@[j], #[trigger] &items@[j + 1]),
            decreases pairs.len() - i,
        {
            let item = item_from_pair(&pairs[i]);
            items.push(item);
            i += 1;
        }
    }
    items
}

} // verus!
