//! The data that the peer manager keeps and hands out. The types are plain
//! records; contracts speak of their fields and of sequences of them.

use crate::text::texts_of;
use vstd::prelude::*;

verus! {

/// Identifier of one participant of the mesh.
pub type PeerId = u32;

/// An overlay IPv4 address together with the length of its network prefix.
#[derive(Clone, Copy, Debug, PartialEq, Eq, Structural)]
pub struct Ipv4Inet {
    pub address: u32,
    pub network_length: u8,
}

/// How a node sits behind its address translator, as the classifier
/// reported it. The core only carries and displays it.
#[derive(Clone, Copy, Debug, PartialEq, Eq, Structural)]
pub enum NatType {
    Unknown,
    OpenInternet,
    NoPat,
    FullCone,
    Restricted,
    PortRestricted,
    Symmetric,
    SymUdpFirewall,
    SymmetricEasyInc,
    SymmetricEasyDec,
}

/// One transport-level link to a neighbour.
#[derive(Debug, PartialEq, Eq)]
pub struct PeerConnection {
    /// Identifies this link among the links to the same neighbour.
    pub conn_id: u64,
    /// The neighbour at the other end.
    pub peer_id: PeerId,
    /// Name of the transport protocol in use.
    pub protocol: String,
    /// Round-trip latency in microseconds, absent while unmeasured.
    pub latency_us: Option<u64>,
    /// Loss rate estimate in thousandths.
    pub loss_milli: u32,
    /// Bytes received so far.
    pub rx_bytes: u64,
    /// Bytes sent so far.
    pub tx_bytes: u64,
    /// Whether the transport reports the link as alive.
    pub alive: bool,
}

impl Clone for PeerConnection {
    fn clone(&self) -> (r: Self)
        ensures
            r == *self,
    {
        PeerConnection {
            conn_id: self.conn_id,
            peer_id: self.peer_id,
            protocol: self.protocol.clone(),
            latency_us: self.latency_us,
            loss_milli: self.loss_milli,
            rx_bytes: self.rx_bytes,
            tx_bytes: self.tx_bytes,
            alive: self.alive,
        }
    }
}

/// A copy of `texts`.
pub fn clone_texts(texts: &Vec<String>) -> (r: Vec<String>)
    ensures
        r@ == texts@,
{
    let mut r: Vec<String> = Vec::new();
    let mut i: usize = 0;
    while i < texts.len()
        invariant
            i <= texts.len(),
            r@ == texts@.take(i as int),
        decreases texts.len() - i,
    {
        r.push(texts[i].clone());
        proof {
            assert(r@ =~= texts@.take(i + 1));
        }
        i += 1;
    }
    proof {
        assert(texts@.take(texts.len() as int) =~= texts@);
    }
    r
}

/// A copy of `conns`.
pub fn clone_conns(conns: &Vec<PeerConnection>) -> (r: Vec<PeerConnection>)
    ensures
        r@ == conns@,
{
    let mut r: Vec<PeerConnection> = Vec::new();
    let mut i: usize = 0;
    while i < conns.len()
        invariant
            i <= conns.len(),
            r@ == conns@.take(i as int),
        decreases conns.len() - i,
    {
        r.push(conns[i].clone());
        proof {
            assert(r@ =~= conns@.take(i + 1));
        }
        i += 1;
    }
    proof {
        assert(conns@.take(conns.len() as int) =~= conns@);
    }
    r
}

/// A direct neighbour with its live connections, oldest first.
#[derive(Debug, PartialEq, Eq)]
pub struct PeerInfo {
    pub peer_id: PeerId,
    pub conns: Vec<PeerConnection>,
}

impl Clone for PeerInfo {
    fn clone(&self) -> (r: Self)
        ensures
            r.peer_id == self.peer_id,
            r.conns@ == self.conns@,
    {
        PeerInfo { peer_id: self.peer_id, conns: clone_conns(&self.conns) }
    }
}

/// One entry of a link state: a neighbour that the origin reaches directly,
/// and the cost of that link.
#[derive(Clone, Copy, Debug, PartialEq, Eq, Structural)]
pub struct Neighbor {
    pub peer_id: PeerId,
    pub cost: u32,
}

/// What one node reports of itself: whom it reaches directly and at what
/// cost, and how it describes itself.
#[derive(Debug, PartialEq, Eq)]
pub struct LinkState {
    /// The node that reports.
    pub origin: PeerId,
    /// Sequence number, strictly increasing per origin.
    pub seq: u64,
    pub neighbors: Vec<Neighbor>,
    pub hostname: String,
    pub ipv4_addr: Option<Ipv4Inet>,
    pub version: String,
    pub nat_type: NatType,
    /// The origin's own estimate of the latency of a path to it, in
    /// microseconds.
    pub latency_us: Option<u64>,
    /// The origin's own estimate of the loss along a path to it, in
    /// thousandths.
    pub loss_milli: Option<u32>,
}

/// The best path to one destination.
#[derive(Debug, PartialEq, Eq)]
pub struct Route {
    /// The destination.
    pub peer_id: PeerId,
    /// The neighbour that traffic to the destination is handed to.
    pub next_hop_peer_id: PeerId,
    /// Total cost of the path; 1 for a direct neighbour.
    pub cost: u64,
    pub hostname: String,
    pub ipv4_addr: Option<Ipv4Inet>,
    pub version: String,
    pub nat_type: NatType,
    /// Measured on the link where `cost` is 1, else the destination's own
    /// estimate; in microseconds.
    pub path_latency_us: Option<u64>,
    /// Loss along the path in thousandths, from the same source as the
    /// latency.
    pub loss_milli: Option<u32>,
    /// Names of the tunnel protocols in use on the first hop.
    pub tunnel_protos: Vec<String>,
}

impl Route {
    /// The route that stands for "no route": every number zero, every text
    /// empty.
    pub open spec fn is_blank(&self) -> bool {
        &&& self.peer_id == 0
        &&& self.next_hop_peer_id == 0
        &&& self.cost == 0
        &&& self.hostname@ == Seq::<char>::empty()
        &&& self.ipv4_addr is None
        &&& self.version@ == Seq::<char>::empty()
        &&& self.nat_type == NatType::Unknown
        &&& self.path_latency_us is None
        &&& self.loss_milli is None
        &&& self.tunnel_protos@ == Seq::<String>::empty()
    }

    pub fn blank() -> (r: Route)
        ensures
            r.is_blank(),
    {
        Route {
            peer_id: 0,
            next_hop_peer_id: 0,
            cost: 0,
            hostname: String::new(),
            ipv4_addr: None,
            version: String::new(),
            nat_type: NatType::Unknown,
            path_latency_us: None,
            loss_milli: None,
            tunnel_protos: Vec::new(),
        }
    }

    /// Whether two routes say the same: every number the same, every text
    /// with the same characters.
    pub open spec fn same(&self, other: &Route) -> bool {
        &&& self.peer_id == other.peer_id
        &&& self.next_hop_peer_id == other.next_hop_peer_id
        &&& self.cost == other.cost
        &&& self.hostname@ == other.hostname@
        &&& self.ipv4_addr == other.ipv4_addr
        &&& self.version@ == other.version@
        &&& self.nat_type == other.nat_type
        &&& self.path_latency_us == other.path_latency_us
        &&& self.loss_milli == other.loss_milli
        &&& texts_of(self.tunnel_protos@) == texts_of(other.tunnel_protos@)
    }
}

impl Clone for Route {
    fn clone(&self) -> (r: Self)
        ensures
            r.same(self),
    {
        Route {
            peer_id: self.peer_id,
            next_hop_peer_id: self.next_hop_peer_id,
            cost: self.cost,
            hostname: self.hostname.clone(),
            ipv4_addr: self.ipv4_addr,
            version: self.version.clone(),
            nat_type: self.nat_type,
            path_latency_us: self.path_latency_us,
            loss_milli: self.loss_milli,
            tunnel_protos: clone_texts(&self.tunnel_protos),
        }
    }
}

/// How the local node describes itself.
#[derive(Debug, PartialEq, Eq)]
pub struct NodeInfo {
    pub peer_id: PeerId,
    pub hostname: String,
    /// The overlay address as text, with or without a prefix length; empty
    /// where none is assigned.
    pub ipv4_addr: String,
    pub version: String,
    /// Absent until the classifier has reported.
    pub nat_type: Option<NatType>,
}

impl Clone for NodeInfo {
    fn clone(&self) -> (r: Self)
        ensures
            r == *self,
    {
        NodeInfo {
            peer_id: self.peer_id,
            hostname: self.hostname.clone(),
            ipv4_addr: self.ipv4_addr.clone(),
            version: self.version.clone(),
            nat_type: self.nat_type,
        }
    }
}

/// What was measured directly of a peer, beside what the mesh computed for
/// it. Either side may be absent.
#[derive(Debug, PartialEq, Eq)]
pub struct PeerRoutePair {
    pub route: Option<Route>,
    pub peer: Option<PeerInfo>,
}

/// Where a latency stands when latencies are compared: a measured one by its
/// value, an unmeasured one behind every measured one.
pub open spec fn latency_rank(latency_us: Option<u64>) -> int {
    match latency_us {
        Some(v) => v as int,
        None => u64::MAX as int + 1,
    }
}

/// Whether `conns[i]` is the connection that represents the neighbour: none
/// has a lower latency, and of those with the same latency it is the one
/// established last.
pub open spec fn is_preferred(conns: Seq<PeerConnection>, i: int) -> bool {
    &&& 0 <= i < conns.len()
    &&& forall|j: int|
        0 <= j < conns.len() ==> latency_rank(conns[i].latency_us) <= latency_rank(
            #[trigger] conns[j].latency_us,
        )
    &&& forall|j: int|
        i < j < conns.len() ==> latency_rank(conns[i].latency_us) < latency_rank(
            #[trigger] conns[j].latency_us,
        )
}

/// The place of the connection that represents the neighbour.
pub open spec fn preferred(conns: Seq<PeerConnection>) -> int {
    choose|i: int| is_preferred(conns, i)
}

/// The latency measured on the representing connection; none without a
/// connection.
pub open spec fn measured_latency(conns: Seq<PeerConnection>) -> Option<u64> {
    if conns.len() == 0 {
        None
    } else {
        conns[preferred(conns)].latency_us
    }
}

/// The loss measured on the representing connection; none without a
/// connection.
pub open spec fn measured_loss(conns: Seq<PeerConnection>) -> Option<u32> {
    if conns.len() == 0 {
        None
    } else {
        Some(conns[preferred(conns)].loss_milli)
    }
}

/// Sum of the received bytes of `conns`.
pub open spec fn total_rx(conns: Seq<PeerConnection>) -> nat
    decreases conns.len(),
{
    if conns.len() == 0 {
        0
    } else {
        total_rx(conns.drop_last()) + conns.last().rx_bytes as nat
    }
}

/// Sum of the sent bytes of `conns`.
pub open spec fn total_tx(conns: Seq<PeerConnection>) -> nat
    decreases conns.len(),
{
    if conns.len() == 0 {
        0
    } else {
        total_tx(conns.drop_last()) + conns.last().tx_bytes as nat
    }
}

/// `n`, or the largest `u64` where `n` does not fit.
pub open spec fn capped(n: nat) -> u64 {
    if n <= u64::MAX as nat {
        n as u64
    } else {
        u64::MAX
    }
}

/// The texts of `texts` without repetitions, each at the place of its first
/// occurrence.
pub open spec fn distinct_texts(texts: Seq<Seq<char>>) -> Seq<Seq<char>>
    decreases texts.len(),
{
    if texts.len() == 0 {
        Seq::empty()
    } else {
        let before = distinct_texts(texts.drop_last());
        if before.contains(texts.last()) {
            before
        } else {
            before.push(texts.last())
        }
    }
}

/// The protocol names of `conns`, in order.
pub open spec fn protocol_names(conns: Seq<PeerConnection>) -> Seq<Seq<char>> {
    conns.map_values(|c: PeerConnection| c.protocol@)
}

/// Whether one of `texts` has the characters of `t`.
pub fn contains_text(texts: &Vec<String>, t: &String) -> (found: bool)
    ensures
        found == texts_of(texts@).contains(t@),
{
    let mut i: usize = 0;
    while i < texts.len()
        invariant
            i <= texts.len(),
            forall|j: int| 0 <= j < i ==> texts_of(texts@)[j] != t@,
        decreases texts.len() - i,
    {
        if texts[i] == *t {
            proof {
                assert(texts_of(texts@)[i as int] == t@);
            }
            return true;
        }
        i += 1;
    }
    false
}

impl PeerInfo {
    /// The place of the connection that represents this neighbour, where it
    /// has any.
    pub fn preferred_index(&self) -> (r: Option<usize>)
        ensures
            r is None <==> self.conns@.len() == 0,
            r matches Some(i) ==> is_preferred(self.conns@, i as int),
    {
        if self.conns.len() == 0 {
            return None;
        }
        let mut best: usize = 0;
        let mut i: usize = 1;
        while i < self.conns.len()
            invariant
                1 <= i <= self.conns.len(),
                is_preferred(self.conns@.take(i as int), best as int),
            decreases self.conns.len() - i,
        {
            let better = match (self.conns[i].latency_us, self.conns[best].latency_us) {
                (Some(a), Some(b)) => a <= b,
                (Some(_), None) => true,
                (None, Some(_)) => false,
                (None, None) => true,
            };
            proof {
                assert(better == (latency_rank(self.conns@[i as int].latency_us) <= latency_rank(
                    self.conns@[best as int].latency_us,
                )));
                let before = self.conns@.take(i as int);
                let after = self.conns@.take(i + 1);
                assert forall|j: int| 0 <= j < i implies before[j] == after[j] by {}
                assert forall|j: int| 0 <= j < after.len() implies latency_rank(
                    after[if better {
                        i as int
                    } else {
                        best as int
                    }].latency_us,
                ) <= latency_rank(#[trigger] after[j].latency_us) by {
                    if j < i {
                        assert(before[j] == after[j]);
                    }
                }
                if !better {
                    assert forall|j: int| best < j < after.len() implies latency_rank(
                        after[best as int].latency_us,
                    ) < latency_rank(#[trigger] after[j].latency_us) by {
                        if j < i {
                            assert(before[j] == after[j]);
                        }
                    }
                }
            }
            if better {
                best = i;
            }
            i += 1;
        }
        proof {
            assert(self.conns@.take(self.conns.len() as int) =~= self.conns@);
        }
        Some(best)
    }

    /// The latency of the representing connection, in microseconds.
    pub fn latency_us(&self) -> (r: Option<u64>)
        ensures
            r == measured_latency(self.conns@),
    {
        match self.preferred_index() {
            Some(i) => {
                proof {
                    lemma_preferred_unique(self.conns@, i as int);
                }
                self.conns[i].latency_us
            },
            None => None,
        }
    }

    /// The loss rate of the representing connection, in thousandths.
    pub fn loss_milli(&self) -> (r: Option<u32>)
        ensures
            r == measured_loss(self.conns@),
    {
        match self.preferred_index() {
            Some(i) => {
                proof {
                    lemma_preferred_unique(self.conns@, i as int);
                }
                Some(self.conns[i].loss_milli)
            },
            None => None,
        }
    }

    /// The bytes received over all connections together, held at the largest
    /// `u64` where the sum exceeds it.
    pub fn rx_bytes(&self) -> (r: u64)
        ensures
            r == capped(total_rx(self.conns@)),
    {
        let mut sum: u64 = 0;
        let mut i: usize = 0;
        while i < self.conns.len()
            invariant
                i <= self.conns.len(),
                sum == capped(total_rx(self.conns@.take(i as int))),
            decreases self.conns.len() - i,
        {
            proof {
                assert(self.conns@.take(i + 1).drop_last() =~= self.conns@.take(i as int));
            }
            sum = sum.saturating_add(self.conns[i].rx_bytes);
            i += 1;
        }
        proof {
            assert(self.conns@.take(self.conns.len() as int) =~= self.conns@);
        }
        sum
    }

    /// The bytes sent over all connections together, held at the largest
    /// `u64` where the sum exceeds it.
    pub fn tx_bytes(&self) -> (r: u64)
        ensures
            r == capped(total_tx(self.conns@)),
    {
        let mut sum: u64 = 0;
        let mut i: usize = 0;
        while i < self.conns.len()
            invariant
                i <= self.conns.len(),
                sum == capped(total_tx(self.conns@.take(i as int))),
            decreases self.conns.len() - i,
        {
            proof {
                assert(self.conns@.take(i + 1).drop_last() =~= self.conns@.take(i as int));
            }
            sum = sum.saturating_add(self.conns[i].tx_bytes);
            i += 1;
        }
        proof {
            assert(self.conns@.take(self.conns.len() as int) =~= self.conns@);
        }
        sum
    }

    /// The names of the protocols in use towards this neighbour, each once,
    /// in the order in which the connections were established.
    pub fn protocols(&self) -> (r: Vec<String>)
        ensures
            texts_of(r@) == distinct_texts(protocol_names(self.conns@)),
    {
        let mut r: Vec<String> = Vec::new();
        let mut i: usize = 0;
        proof {
            assert(texts_of(r@) =~= distinct_texts(protocol_names(self.conns@.take(0))));
        }
        while i < self.conns.len()
            invariant
                i <= self.conns.len(),
                texts_of(r@) == distinct_texts(protocol_names(self.conns@.take(i as int))),
            decreases self.conns.len() - i,
        {
            let ghost before = r@;
            proof {
                let names = protocol_names(self.conns@.take(i + 1));
                assert(names.drop_last() =~= protocol_names(self.conns@.take(i as int)));
                assert(names.last() == self.conns@[i as int].protocol@);
            }
            if !contains_text(&r, &self.conns[i].protocol) {
                r.push(self.conns[i].protocol.clone());
                proof {
                    assert(texts_of(r@) =~= texts_of(before).push(self.conns@[i as int].protocol@));
                }
            }
            i += 1;
        }
        proof {
            assert(self.conns@.take(self.conns.len() as int) =~= self.conns@);
        }
        r
    }
}

/// At most one connection represents a neighbour.
pub proof fn lemma_preferred_unique(conns: Seq<PeerConnection>, i: int)
    requires
        is_preferred(conns, i),
    ensures
        forall|j: int| is_preferred(conns, j) ==> j == i,
{
    assert forall|j: int| is_preferred(conns, j) implies j == i by {
        if j < i {
            assert(latency_rank(conns[j].latency_us) < latency_rank(conns[i].latency_us));
            assert(latency_rank(conns[i].latency_us) <= latency_rank(conns[j].latency_us));
        } else if i < j {
            assert(latency_rank(conns[i].latency_us) < latency_rank(conns[j].latency_us));
            assert(latency_rank(conns[j].latency_us) <= latency_rank(conns[i].latency_us));
        }
    }
}

} // verus!
