//! The peer manager: the table of neighbours, the link states held and the
//! route table computed from both, behind one set of calls.

use crate::link_state::{
    after_event, delivered, entry_ok, usable_links, verdict_for, LinkEntry, LinkEvent,
    LinkStateDb, Verdict,
};
use crate::model::{
    Ipv4Inet, LinkState, NatType, Neighbor, NodeInfo, PeerConnection, PeerId, PeerInfo, Route,
};
use crate::paths::{Path, reachable, reaches};
use crate::peer_table::{
    filed, has_key, is_peer_list, live, neighbors, put_in_place, without, PeerTable,
};
use crate::routes::{
    advertised, compute_routes, direct_ok, has_route, held_ok, is_route_table, lemma_direct_routes,
    route_mesh, route_ok,
};
use crate::stats::{parse_inet, parsed_inet};
use vstd::prelude::*;

verus! {

/// The state of one node of the mesh.
pub struct PeerManager {
    node: NodeInfo,
    peers: PeerTable,
    links: LinkStateDb,
    routes: Vec<Route>,
    pending: bool,
}

/// The links of a link state that reports the neighbours `ids`, each at the
/// cost of a direct link.
pub open spec fn direct_links(ids: Seq<PeerId>) -> Seq<Neighbor> {
    Seq::new(ids.len(), |i: int| Neighbor { peer_id: ids[i], cost: 1 })
}

/// Whether `ls` is the link state of the node `node` with the sequence
/// number `seq`, the neighbours `ids` and the overlay address `parsed`.
pub open spec fn is_local_link_state(
    node: &NodeInfo,
    parsed: Option<(u32, u8)>,
    seq: u64,
    ids: Seq<PeerId>,
    ls: &LinkState,
) -> bool {
    &&& ls.origin == node.peer_id
    &&& ls.seq == seq
    &&& ls.neighbors@ == direct_links(ids)
    &&& ls.hostname@ == node.hostname@
    &&& ls.version@ == node.version@
    &&& ls.ipv4_addr == match parsed {
        Some(p) => Some(Ipv4Inet { address: p.0, network_length: p.1 }),
        None => None,
    }
    &&& ls.nat_type == match node.nat_type {
        Some(k) => k,
        None => NatType::Unknown,
    }
    &&& ls.latency_us is None
    &&& ls.loss_milli is None
}

/// The link state that a node reports of itself: its direct neighbours, each
/// at cost 1, and its own description.
pub fn link_state_of(
    node: &NodeInfo,
    parsed: Option<(u32, u8)>,
    seq: u64,
    ids: &Vec<PeerId>,
) -> (ls: LinkState)
    ensures
        is_local_link_state(node, parsed, seq, ids@, &ls),
{
    let mut neighbors: Vec<Neighbor> = Vec::new();
    let mut i: usize = 0;
    while i < ids.len()
        invariant
            i <= ids.len(),
            neighbors@.len() == i,
            forall|j: int|
                0 <= j < i ==> #[trigger] neighbors@[j] == (Neighbor { peer_id: ids@[j], cost: 1 }),
        decreases ids.len() - i,
    {
        neighbors.push(Neighbor { peer_id: ids[i], cost: 1 });
        i += 1;
    }
    proof {
        assert(neighbors@ =~= direct_links(ids@));
    }
    LinkState {
        origin: node.peer_id,
        seq,
        neighbors,
        hostname: node.hostname.clone(),
        ipv4_addr: match parsed {
            Some(p) => Some(Ipv4Inet { address: p.0, network_length: p.1 }),
            None => None,
        },
        version: node.version.clone(),
        nat_type: match node.nat_type {
            Some(k) => k,
            None => NatType::Unknown,
        },
        latency_us: None,
        loss_milli: None,
    }
}

/// The identifiers of a list of peers, in order.
pub fn peer_ids(list: &Vec<PeerInfo>) -> (ids: Vec<PeerId>)
    ensures
        ids@.len() == list@.len(),
        forall|i: int| 0 <= i < list@.len() ==> #[trigger] ids@[i] == list@[i].peer_id,
{
    let mut ids: Vec<PeerId> = Vec::new();
    let mut i: usize = 0;
    while i < list.len()
        invariant
            i <= list.len(),
            ids@.len() == i,
            forall|j: int| 0 <= j < i ==> #[trigger] ids@[j] == list@[j].peer_id,
        decreases list.len() - i,
    {
        ids.push(list[i].peer_id);
        i += 1;
    }
    ids
}

/// Holds of every node but `a` and `b`.
pub open spec fn neither(a: PeerId, b: PeerId) -> spec_fn(PeerId) -> bool {
    |id: PeerId| id != a && id != b
}

/// To whom a link state is passed on: to nobody unless it was accepted, else
/// to every direct neighbour but the one it came from and the one that
/// reports it.
pub open spec fn flood_targets(
    ids: Seq<PeerId>,
    origin: PeerId,
    sender: PeerId,
    verdict: Verdict,
) -> Seq<PeerId> {
    if verdict == Verdict::Accepted {
        ids.filter(neither(origin, sender))
    } else {
        Seq::empty()
    }
}

/// To whom a link state is passed on, among the direct neighbours `ids`.
pub fn forward_targets(
    ids: &Vec<PeerId>,
    origin: PeerId,
    sender: PeerId,
    verdict: Verdict,
) -> (out: Vec<PeerId>)
    ensures
        out@ == flood_targets(ids@, origin, sender, verdict),
{
    let mut out: Vec<PeerId> = Vec::new();
    if verdict != Verdict::Accepted {
        return out;
    }
    let mut i: usize = 0;
    proof {
        assert(ids@.take(0).filter(neither(origin, sender)) =~= out@) by {
            reveal(Seq::filter);
        }
    }
    while i < ids.len()
        invariant
            i <= ids.len(),
            out@ == ids@.take(i as int).filter(neither(origin, sender)),
        decreases ids.len() - i,
    {
        proof {
            let prefix = ids@.take(i as int);
            assert(ids@.take(i + 1) =~= prefix.push(ids@[i as int]));
            prefix.lemma_filter_push(ids@[i as int], neither(origin, sender));
        }
        if ids[i] != origin && ids[i] != sender {
            out.push(ids[i]);
        }
        i += 1;
    }
    proof {
        assert(ids@.take(ids.len() as int) =~= ids@);
    }
    out
}

/// Without connections no node can be reached, so the empty table is the
/// route table.
pub proof fn lemma_no_connections_no_routes(local: PeerId, held: Map<PeerId, LinkEntry>)
    ensures
        is_route_table(local, Seq::empty(), held, Seq::empty()),
{
    let conns = Seq::<PeerConnection>::empty();
    let m = route_mesh(local, conns, held);
    assert(live(conns) =~= conns) by {
        reveal(Seq::filter);
    }
    assert(m.hops.len() == 0);
    assert forall|d: PeerId| !reachable(m, d) by {
        if reachable(m, d) {
            let p = choose|p: Path| reaches(m, p, d);
            assert(m.hops.contains(p.first));
        }
    }
    let routes = Seq::<Route>::empty();
    assert forall|d: PeerId| #[trigger] has_route(routes, d) <==> d != local && reachable(m, d) by {
        assert(!reachable(m, d));
    }
}

impl PeerManager {
    /// How the node describes itself.
    pub closed spec fn node(&self) -> NodeInfo {
        self.node
    }

    /// The registered connections, oldest first.
    pub closed spec fn conns(&self) -> Seq<PeerConnection> {
        self.peers@
    }

    /// What is held of the other nodes.
    pub closed spec fn held(&self) -> Map<PeerId, LinkEntry> {
        self.links@
    }

    /// The route table as last computed.
    pub closed spec fn route_table(&self) -> Seq<Route> {
        self.routes@
    }

    /// Whether something changed since the route table was computed.
    pub closed spec fn pending(&self) -> bool {
        self.pending
    }

    /// What holds of every manager: its parts are well formed, and unless a
    /// recomputation is pending the route table is the one of the
    /// connections registered and the link states held.
    pub closed spec fn wf(&self) -> bool {
        &&& self.peers.wf()
        &&& self.links.wf()
        &&& !self.pending ==> is_route_table(
            self.node.peer_id,
            self.peers@,
            self.links@,
            self.routes@,
        )
    }

    /// What a manager promises of its route table while nothing is pending.
    pub proof fn lemma_route_table(&self)
        requires
            self.wf(),
            !self.pending(),
        ensures
            is_route_table(self.node().peer_id, self.conns(), self.held(), self.route_table()),
    {
    }

    /// What the costs of the routes of a manager mean, while nothing is
    /// pending: no route leads to the node itself, a route costs exactly 1
    /// where its destination is a direct neighbour, and such a route has its
    /// destination as the next hop.
    pub proof fn lemma_direct_routes(&self)
        requires
            self.wf(),
            !self.pending(),
        ensures
            forall|i: int|
                0 <= i < self.route_table().len() ==> direct_ok(
                    self.node().peer_id,
                    neighbors(live(self.conns())),
                    #[trigger] self.route_table()[i],
                ),
    {
        self.links.lemma_entries();
        lemma_direct_routes(self.node.peer_id, self.peers@, self.links@, self.routes@);
    }

    /// The manager of the node `node`, without connections, link states or
    /// routes.
    pub fn new(node: NodeInfo) -> (mgr: PeerManager)
        ensures
            mgr.wf(),
            mgr.node() == node,
            mgr.conns() == Seq::<PeerConnection>::empty(),
            mgr.held() == Map::<PeerId, LinkEntry>::empty(),
            mgr.route_table() == Seq::<Route>::empty(),
            !mgr.pending(),
    {
        proof {
            lemma_no_connections_no_routes(node.peer_id, Map::empty());
        }
        PeerManager {
            node,
            peers: PeerTable::new(),
            links: LinkStateDb::new(),
            routes: Vec::new(),
            pending: false,
        }
    }

    /// Registers a connection to `peer_id` and asks for a recomputation of
    /// the routes.
    pub fn add_connection(&mut self, peer_id: PeerId, connection: PeerConnection)
        requires
            old(self).wf(),
        ensures
            final(self).wf(),
            final(self).conns() == without(old(self).conns(), peer_id, connection.conn_id).push(
                filed(connection, peer_id),
            ),
            final(self).pending(),
            final(self).node() == old(self).node(),
            final(self).held() == old(self).held(),
            final(self).route_table() == old(self).route_table(),
    {
        self.peers.add_connection(peer_id, connection);
        self.pending = true;
    }

    /// Takes over what a transport reports of a registered connection, says
    /// whether the connection is registered, and asks for a recomputation of
    /// the routes if so.
    pub fn update_connection(
        &mut self,
        peer_id: PeerId,
        connection: PeerConnection,
    ) -> (found: bool)
        requires
            old(self).wf(),
        ensures
            final(self).wf(),
            final(self).conns() == old(self).conns().map_values(
                put_in_place(peer_id, connection),
            ),
            found == exists|i: int|
                0 <= i < old(self).conns().len() && has_key(peer_id, connection.conn_id)(
                    old(self).conns()[i],
                ),
            final(self).pending() == (old(self).pending() || found),
            final(self).node() == old(self).node(),
            final(self).held() == old(self).held(),
            final(self).route_table() == old(self).route_table(),
    {
        let found = self.peers.update_connection(peer_id, connection);
        if found {
            self.pending = true;
        } else {
            proof {
                lemma_nothing_replaced(old(self).peers@, peer_id, connection);
            }
        }
        found
    }

    /// Takes out the connection of `peer_id` with the identifier `conn_id`,
    /// says whether there was one, and asks for a recomputation of the routes
    /// if so.
    pub fn remove_connection(&mut self, peer_id: PeerId, conn_id: u64) -> (removed: bool)
        requires
            old(self).wf(),
        ensures
            final(self).wf(),
            final(self).conns() == without(old(self).conns(), peer_id, conn_id),
            removed == exists|i: int|
                0 <= i < old(self).conns().len() && has_key(peer_id, conn_id)(old(self).conns()[i]),
            final(self).pending() == (old(self).pending() || removed),
            final(self).node() == old(self).node(),
            final(self).held() == old(self).held(),
            final(self).route_table() == old(self).route_table(),
    {
        let removed = self.peers.remove_connection(peer_id, conn_id);
        if removed {
            self.pending = true;
        } else {
            proof {
                lemma_nothing_removed(old(self).peers@, peer_id, conn_id);
            }
        }
        removed
    }

    /// Handles a link state that arrived: it is accepted or dropped as the
    /// database decides, and an accepted one asks for a recomputation of the
    /// routes.
    pub fn handle_link_state(&mut self, ls: LinkState) -> (verdict: Verdict)
        requires
            old(self).wf(),
        ensures
            final(self).wf(),
            verdict == verdict_for(old(self).held(), ls.origin, ls.seq, ls.neighbors@),
            final(self).held() == delivered(old(self).held(), ls),
            final(self).pending() == (old(self).pending() || verdict == Verdict::Accepted),
            final(self).node() == old(self).node(),
            final(self).conns() == old(self).conns(),
            final(self).route_table() == old(self).route_table(),
    {
        let verdict = self.links.accept(ls);
        if verdict == Verdict::Accepted {
            self.pending = true;
        }
        verdict
    }

    /// Notes that the local link state was sent to `peer`. The routes do not
    /// depend on it, so no recomputation is asked for.
    pub fn advertise(&mut self, peer: PeerId)
        requires
            old(self).wf(),
        ensures
            final(self).wf(),
            final(self).held() == after_event(old(self).held(), peer, LinkEvent::Advertised),
            final(self).pending() == old(self).pending(),
            final(self).node() == old(self).node(),
            final(self).conns() == old(self).conns(),
            final(self).route_table() == old(self).route_table(),
    {
        proof {
            if !self.pending {
                self.links.lemma_entries();
                lemma_advertising_keeps_routes(
                    self.node.peer_id,
                    self.peers@,
                    self.links@,
                    peer,
                    self.routes@,
                );
            }
        }
        self.links.advertise(peer);
    }

    /// Notes that `origin` let its refresh deadline pass, and asks for a
    /// recomputation of the routes: a stale link state is no longer used.
    pub fn miss_deadline(&mut self, origin: PeerId)
        requires
            old(self).wf(),
        ensures
            final(self).wf(),
            final(self).held() == after_event(old(self).held(), origin, LinkEvent::DeadlineMissed),
            final(self).pending(),
            final(self).node() == old(self).node(),
            final(self).conns() == old(self).conns(),
            final(self).route_table() == old(self).route_table(),
    {
        self.links.miss_deadline(origin);
        self.pending = true;
    }

    /// Notes that the grace period of `origin` ran out: its stale link state
    /// is purged.
    pub fn expire_grace(&mut self, origin: PeerId)
        requires
            old(self).wf(),
        ensures
            final(self).wf(),
            final(self).held() == after_event(old(self).held(), origin, LinkEvent::GraceExpired),
            final(self).pending(),
            final(self).node() == old(self).node(),
            final(self).conns() == old(self).conns(),
            final(self).route_table() == old(self).route_table(),
    {
        self.links.expire_grace(origin);
        self.pending = true;
    }

    /// Brings the route table up to date. However many changes asked for it,
    /// one call computes the table once, from the connections and link
    /// states as they are now, and puts it in place of the old one. Without a
    /// pending change the table stays as it is. Says whether it computed.
    pub fn recompute(&mut self) -> (computed: bool)
        requires
            old(self).wf(),
        ensures
            final(self).wf(),
            computed == old(self).pending(),
            !final(self).pending(),
            is_route_table(
                final(self).node().peer_id,
                final(self).conns(),
                final(self).held(),
                final(self).route_table(),
            ),
            !computed ==> final(self).route_table() == old(self).route_table(),
            final(self).node() == old(self).node(),
            final(self).conns() == old(self).conns(),
            final(self).held() == old(self).held(),
    {
        if !self.pending {
            return false;
        }
        let routes = compute_routes(self.node.peer_id, &self.peers, &self.links);
        self.routes = routes;
        self.pending = false;
        true
    }

    /// A snapshot of the direct neighbours, each with its live connections.
    pub fn list_peers(&self) -> (list: Vec<PeerInfo>)
        requires
            self.wf(),
        ensures
            is_peer_list(list@, live(self.conns())),
    {
        self.peers.list_peers()
    }

    /// A snapshot of the route table as last computed.
    pub fn list_routes(&self) -> (routes: Vec<Route>)
        requires
            self.wf(),
        ensures
            routes@.len() == self.route_table().len(),
            forall|i: int|
                0 <= i < routes@.len() ==> (#[trigger] routes@[i]).same(&self.route_table()[i]),
    {
        let mut routes: Vec<Route> = Vec::new();
        let mut i: usize = 0;
        while i < self.routes.len()
            invariant
                i <= self.routes.len(),
                routes@.len() == i,
                forall|j: int| 0 <= j < i ==> (#[trigger] routes@[j]).same(&self.routes@[j]),
            decreases self.routes.len() - i,
        {
            routes.push(self.routes[i].clone());
            i += 1;
        }
        routes
    }

    /// How the node describes itself. This does not wait for any link state.
    pub fn get_node_info(&self) -> (info: NodeInfo)
        ensures
            info == self.node(),
    {
        self.node.clone()
    }

    /// The link state that the node reports of itself under the sequence
    /// number `seq`: its direct neighbours, each at cost 1.
    pub fn local_link_state(&self, seq: u64) -> (ls: LinkState)
        requires
            self.wf(),
        ensures
            is_local_link_state(
                &self.node(),
                parsed_inet(self.node().ipv4_addr@),
                seq,
                neighbors(live(self.conns())),
                &ls,
            ),
    {
        let list = self.peers.list_peers();
        let ids = peer_ids(&list);
        proof {
            assert(ids@ =~= neighbors(live(self.conns())));
        }
        let parsed = parse_inet(self.node.ipv4_addr.as_str());
        link_state_of(&self.node, parsed, seq, &ids)
    }

    /// To whom a link state that `sender` handed in is passed on, given what
    /// became of it.
    pub fn flood(&self, origin: PeerId, sender: PeerId, verdict: Verdict) -> (out: Vec<PeerId>)
        requires
            self.wf(),
        ensures
            out@ == flood_targets(neighbors(live(self.conns())), origin, sender, verdict),
    {
        let list = self.peers.list_peers();
        let ids = peer_ids(&list);
        proof {
            assert(ids@ =~= neighbors(live(self.conns())));
        }
        forward_targets(&ids, origin, sender, verdict)
    }
}

/// Where no connection has the key, putting a connection in the place of
/// the one with the key changes nothing.
pub proof fn lemma_nothing_replaced(
    conns: Seq<PeerConnection>,
    peer_id: PeerId,
    connection: PeerConnection,
)
    requires
        forall|i: int|
            0 <= i < conns.len() ==> !has_key(peer_id, connection.conn_id)(#[trigger] conns[i]),
    ensures
        conns.map_values(put_in_place(peer_id, connection)) == conns,
{
    let after = conns.map_values(put_in_place(peer_id, connection));
    assert forall|i: int| 0 <= i < conns.len() implies after[i] == conns[i] by {
        assert(!has_key(peer_id, connection.conn_id)(conns[i]));
    }
    assert(after =~= conns);
}

/// Where no connection has the key, taking the key out changes nothing.
pub proof fn lemma_nothing_removed(conns: Seq<PeerConnection>, peer_id: PeerId, conn_id: u64)
    requires
        forall|i: int| 0 <= i < conns.len() ==> !has_key(peer_id, conn_id)(#[trigger] conns[i]),
    ensures
        without(conns, peer_id, conn_id) == conns,
    decreases conns.len(),
{
    reveal(Seq::filter);
    if conns.len() > 0 {
        lemma_nothing_removed(conns.drop_last(), peer_id, conn_id);
        assert(!has_key(peer_id, conn_id)(conns[conns.len() - 1]));
        assert(conns.drop_last().push(conns.last()) =~= conns);
    }
}

/// Noting that the local link state was sent to a node changes neither the
/// links that paths may follow nor what any node advertised, so a route
/// table stays the route table.
pub proof fn lemma_advertising_keeps_routes(
    local: PeerId,
    conns: Seq<PeerConnection>,
    held: Map<PeerId, LinkEntry>,
    peer: PeerId,
    routes: Seq<Route>,
)
    requires
        is_route_table(local, conns, held, routes),
        held_ok(held),
    ensures
        is_route_table(local, conns, after_event(held, peer, LinkEvent::Advertised), routes),
{
    let after = after_event(held, peer, LinkEvent::Advertised);
    if held.contains_key(peer) {
        assert(entry_ok(held[peer]));
        assert(after =~= held);
    } else {
        assert(usable_links(after) =~= usable_links(held));
        assert(route_mesh(local, conns, after) == route_mesh(local, conns, held));
        assert forall|d: PeerId| advertised(after, d) == advertised(held, d) by {}
        assert forall|i: int| 0 <= i < routes.len() implies route_ok(
            local,
            conns,
            after,
            #[trigger] &routes[i],
        ) by {
            assert(route_ok(local, conns, held, &routes[i]));
        }
    }
}

} // verus!
