//! The route table: for every node that can be reached, the best path to
//! it, what the node advertises of itself, and what was measured on the way.

use crate::link_state::{
    delivered_all, entry_ok, lemma_delivery_order, LinkEntry, LinkStateDb, reported_by,
};
use crate::model::{
    distinct_texts, latency_rank, LinkState, measured_latency, measured_loss, NatType,
    PeerConnection, PeerId, PeerInfo, protocol_names, Route,
};
use crate::paths::{
    Hop, is_best_rank, is_path, lemma_cost_at_least_length, links_positive, Mesh, Path, Rank,
    rank_le, reachable, reaches,
};
use crate::peer_table::{is_peer_list, leads_to, live, neighbors, PeerTable};
use crate::routing::{has_dest, is_reach_table, mesh_of, Reach, reach_rank, shortest_paths};
use crate::text::texts_of;
use vstd::prelude::*;

verus! {

/// The direct neighbours as the path computation sees them: one hop for
/// each neighbour that `conns` lead to, with the latency of the connection
/// that represents it.
pub open spec fn hop_list(conns: Seq<PeerConnection>) -> Seq<Hop> {
    Seq::new(
        neighbors(conns).len(),
        |i: int|
            Hop {
                peer_id: neighbors(conns)[i],
                latency_us: measured_latency(conns.filter(leads_to(neighbors(conns)[i]))),
            },
    )
}

/// The graph that routes are computed in: the local node, the neighbours
/// that the live connections of `conns` lead to, and the fresh link states
/// of `held`.
pub open spec fn route_mesh(
    local: PeerId,
    conns: Seq<PeerConnection>,
    held: Map<PeerId, LinkEntry>,
) -> Mesh {
    mesh_of(local, hop_list(live(conns)), held)
}

/// The link state held of `dest`, fresh or stale.
pub open spec fn advertised(held: Map<PeerId, LinkEntry>, dest: PeerId) -> Option<LinkState> {
    if held.contains_key(dest) {
        held[dest].state
    } else {
        None
    }
}

/// Whether `routes` has a route to `dest`.
pub open spec fn has_route(routes: Seq<Route>, dest: PeerId) -> bool {
    exists|i: int| 0 <= i < routes.len() && (#[trigger] routes[i]).peer_id == dest
}

/// Whether `r` describes its destination as the destination advertised
/// itself; of a destination that advertised nothing, every text is empty.
pub open spec fn describes(adv: Option<LinkState>, r: &Route) -> bool {
    match adv {
        Some(ls) => {
            &&& r.hostname@ == ls.hostname@
            &&& r.ipv4_addr == ls.ipv4_addr
            &&& r.version@ == ls.version@
            &&& r.nat_type == ls.nat_type
        },
        None => {
            &&& r.hostname@ == Seq::<char>::empty()
            &&& r.ipv4_addr is None
            &&& r.version@ == Seq::<char>::empty()
            &&& r.nat_type == NatType::Unknown
        },
    }
}

/// Whether the latency, the loss and the protocols of `r` are as measured:
/// the protocols are those in use on `link`, the connections to the first
/// hop; latency and loss are those measured on `link` where the route is a
/// direct one, and the estimate that the destination advertised otherwise.
pub open spec fn measures(link: Seq<PeerConnection>, adv: Option<LinkState>, r: &Route) -> bool {
    &&& texts_of(r.tunnel_protos@) == distinct_texts(protocol_names(link))
    &&& if r.cost == 1 {
        r.path_latency_us == measured_latency(link) && r.loss_milli == measured_loss(link)
    } else {
        match adv {
            Some(ls) => r.path_latency_us == ls.latency_us && r.loss_milli == ls.loss_milli,
            None => r.path_latency_us is None && r.loss_milli is None,
        }
    }
}

/// By what the path of a route is compared, given the latency measured on
/// its first hop.
pub open spec fn route_rank(r: &Route, hop_latency_us: Option<u64>) -> Rank {
    Rank {
        cost: r.cost as int,
        latency: latency_rank(hop_latency_us),
        hop: r.next_hop_peer_id as int,
    }
}

/// Whether `r` is the route to its destination: its cost and next hop are
/// those of the best path, and the rest is as `describes` and `measures`
/// say.
pub open spec fn route_ok(
    local: PeerId,
    conns: Seq<PeerConnection>,
    held: Map<PeerId, LinkEntry>,
    r: &Route,
) -> bool {
    let link = live(conns).filter(leads_to(r.next_hop_peer_id));
    &&& is_best_rank(
        route_mesh(local, conns, held),
        r.peer_id,
        route_rank(r, measured_latency(link)),
    )
    &&& describes(advertised(held, r.peer_id), r)
    &&& measures(link, advertised(held, r.peer_id), r)
}

/// Whether `routes` is the route table of the node `local` with the
/// registered connections `conns` and the link states `held`: one route for
/// each node other than `local` that a path leads to, none for any other
/// node, in increasing order of the destinations.
pub open spec fn is_route_table(
    local: PeerId,
    conns: Seq<PeerConnection>,
    held: Map<PeerId, LinkEntry>,
    routes: Seq<Route>,
) -> bool {
    &&& forall|i: int, j: int|
        0 <= i < j < routes.len() ==> routes[i].peer_id < routes[j].peer_id
    &&& forall|d: PeerId| #[trigger]
        has_route(routes, d) <==> d != local && reachable(route_mesh(local, conns, held), d)
    &&& forall|i: int| 0 <= i < routes.len() ==> route_ok(local, conns, held, #[trigger] &routes[i])
}

/// The hops of a list of peers.
pub fn hops_from(list: &Vec<PeerInfo>) -> (hops: Vec<Hop>)
    ensures
        hops@.len() == list@.len(),
        forall|i: int|
            0 <= i < list@.len() ==> #[trigger] hops@[i] == (Hop {
                peer_id: list@[i].peer_id,
                latency_us: measured_latency(list@[i].conns@),
            }),
{
    let mut hops: Vec<Hop> = Vec::new();
    let mut i: usize = 0;
    while i < list.len()
        invariant
            i <= list.len(),
            hops@.len() == i,
            forall|j: int|
                0 <= j < i ==> #[trigger] hops@[j] == (Hop {
                    peer_id: list@[j].peer_id,
                    latency_us: measured_latency(list@[j].conns@),
                }),
        decreases list.len() - i,
    {
        let latency_us = list[i].latency_us();
        hops.push(Hop { peer_id: list[i].peer_id, latency_us });
        i += 1;
    }
    hops
}

/// The first place of the peer `peer_id` in a list of peers.
pub fn find_peer(list: &Vec<PeerInfo>, peer_id: PeerId) -> (r: Option<usize>)
    ensures
        r matches Some(k) ==> k < list@.len() && list@[k as int].peer_id == peer_id && forall|
            j: int,
        | 0 <= j < k ==> (#[trigger] list@[j]).peer_id != peer_id,
        r is None ==> forall|k: int|
            0 <= k < list@.len() ==> (#[trigger] list@[k]).peer_id != peer_id,
{
    let mut k: usize = 0;
    while k < list.len()
        invariant
            k <= list.len(),
            forall|j: int| 0 <= j < k ==> (#[trigger] list@[j]).peer_id != peer_id,
        decreases list.len() - k,
    {
        if list[k].peer_id == peer_id {
            return Some(k);
        }
        k += 1;
    }
    None
}

/// The link state that `adv` points to, if any.
pub open spec fn pointed(adv: Option<&LinkState>) -> Option<LinkState> {
    match adv {
        Some(ls) => Some(*ls),
        None => None,
    }
}

/// The route for one node that can be reached: cost and next hop as the
/// path computation found them, the description as the destination
/// advertised it, and the measurements of the connections `link` to the
/// first hop.
pub fn route_to(reach: &Reach, link: &PeerInfo, adv: Option<&LinkState>) -> (r: Route)
    ensures
        r.peer_id == reach.dest,
        r.next_hop_peer_id == reach.next_hop,
        r.cost == reach.cost,
        describes(pointed(adv), &r),
        measures(link.conns@, pointed(adv), &r),
{
    let tunnel_protos = link.protocols();
    let (path_latency_us, loss_milli): (Option<u64>, Option<u32>) = if reach.cost == 1 {
        (link.latency_us(), link.loss_milli())
    } else {
        match adv {
            Some(ls) => (ls.latency_us, ls.loss_milli),
            None => (None, None),
        }
    };
    match adv {
        Some(ls) => Route {
            peer_id: reach.dest,
            next_hop_peer_id: reach.next_hop,
            cost: reach.cost,
            hostname: ls.hostname.clone(),
            ipv4_addr: ls.ipv4_addr,
            version: ls.version.clone(),
            nat_type: ls.nat_type,
            path_latency_us,
            loss_milli,
            tunnel_protos,
        },
        None => Route {
            peer_id: reach.dest,
            next_hop_peer_id: reach.next_hop,
            cost: reach.cost,
            hostname: String::new(),
            ipv4_addr: None,
            version: String::new(),
            nat_type: NatType::Unknown,
            path_latency_us,
            loss_milli,
            tunnel_protos,
        },
    }
}

/// The first hop of a best path is one of the listed peers, and the latency
/// that ranks the path is the one measured on the connections to it.
pub proof fn lemma_first_hop(m: Mesh, alive: Seq<PeerConnection>, list: Seq<PeerInfo>, reach: Reach)
    requires
        m.hops == hop_list(alive),
        is_peer_list(list, alive),
        is_best_rank(m, reach.dest, reach_rank(reach)),
    ensures
        exists|k: int| 0 <= k < list.len() && (#[trigger] list[k]).peer_id == reach.next_hop,
        forall|k: int|
            0 <= k < list.len() && (#[trigger] list[k]).peer_id == reach.next_hop ==> list[k].conns@
                == alive.filter(leads_to(reach.next_hop)),
        reach.hop_latency_us == measured_latency(alive.filter(leads_to(reach.next_hop))),
{
    let p = choose|p: Path| reaches(m, p, reach.dest) && p.rank() == reach_rank(reach);
    assert(m.hops.contains(p.first));
    let a = choose|a: int| 0 <= a < m.hops.len() && m.hops[a] == p.first;
    assert(m.hops[a].peer_id == neighbors(alive)[a]);
    assert(list[a].peer_id == reach.next_hop);
    assert(latency_rank(reach.hop_latency_us) == latency_rank(p.first.latency_us));
}

/// The route table of the node `local`: the best path to every node that
/// can be reached over the live connections of `peers` and the fresh link
/// states of `db`.
pub fn compute_routes(local: PeerId, peers: &PeerTable, db: &LinkStateDb) -> (routes: Vec<Route>)
    requires
        peers.wf(),
        db.wf(),
    ensures
        is_route_table(local, peers@, db@, routes@),
{
    let list = peers.list_peers();
    let hops = hops_from(&list);
    let ghost alive = live(peers@);
    let ghost m = route_mesh(local, peers@, db@);
    proof {
        assert(hops@ =~= hop_list(alive));
    }
    let table = shortest_paths(local, &hops, db);
    let mut routes: Vec<Route> = Vec::new();
    let mut i: usize = 0;
    while i < table.len()
        invariant
            i <= table.len(),
            db.wf(),
            alive == live(peers@),
            m == route_mesh(local, peers@, db@),
            is_peer_list(list@, alive),
            is_reach_table(m, table@),
            routes@.len() == i,
            forall|x: int|
                0 <= x < i ==> (#[trigger] routes@[x]).peer_id == table@[x].dest && route_ok(
                    local,
                    peers@,
                    db@,
                    &routes@[x],
                ),
        decreases table.len() - i,
    {
        let reach = table[i];
        proof {
            assert(is_best_rank(m, table@[i as int].dest, reach_rank(table@[i as int])));
            lemma_first_hop(m, alive, list@, reach);
        }
        let adv = db.get(reach.dest);
        match find_peer(&list, reach.next_hop) {
            Some(k) => {
                let r = route_to(&reach, &list[k], adv);
                proof {
                    assert(route_rank(&r, measured_latency(list@[k as int].conns@)) == reach_rank(
                        reach,
                    ));
                    assert(route_ok(local, peers@, db@, &r));
                }
                routes.push(r);
            },
            None => {
                proof {
                    assert(false);
                }
            },
        }
        i += 1;
    }
    proof {
        assert forall|a: int, b: int| 0 <= a < b < routes@.len() implies routes@[a].peer_id
            < routes@[b].peer_id by {
            assert(routes@[a].peer_id == table@[a].dest);
            assert(routes@[b].peer_id == table@[b].dest);
        }
        assert forall|d: PeerId| #[trigger] has_route(routes@, d) <==> d != local && reachable(
            m,
            d,
        ) by {
            if has_route(routes@, d) {
                let x = choose|x: int| 0 <= x < routes@.len() && (#[trigger] routes@[x]).peer_id == d;
                assert(table@[x].dest == d);
                assert(has_dest(table@, d));
            }
            if d != local && reachable(m, d) {
                assert(has_dest(table@, d));
                let x = choose|x: int| 0 <= x < table@.len() && (#[trigger] table@[x]).dest == d;
                assert(routes@[x].peer_id == d);
            }
        }
    }
    routes
}

/// The destinations of `routes` stand in strictly increasing order.
pub open spec fn ordered(routes: Seq<Route>) -> bool {
    forall|i: int, j: int| 0 <= i < j < routes.len() ==> routes[i].peer_id < routes[j].peer_id
}

/// Two ordered tables with the same destinations have them at the same
/// places.
pub proof fn lemma_same_destinations(first: Seq<Route>, second: Seq<Route>)
    requires
        ordered(first),
        ordered(second),
        forall|d: PeerId| has_route(first, d) <==> has_route(second, d),
    ensures
        first.len() == second.len(),
        forall|i: int| 0 <= i < first.len() ==> (#[trigger] first[i]).peer_id == second[i].peer_id,
    decreases first.len(),
{
    if first.len() == 0 {
        if second.len() > 0 {
            assert(has_route(second, second[0].peer_id));
            let x = choose|x: int|
                0 <= x < first.len() && (#[trigger] first[x]).peer_id == second[0].peer_id;
        }
    } else {
        let fl = first.last();
        assert(has_route(first, fl.peer_id));
        assert(has_route(second, fl.peer_id));
        let y = choose|y: int| 0 <= y < second.len() && (#[trigger] second[y]).peer_id == fl.peer_id;
        let sl = second.last();
        assert(has_route(second, sl.peer_id));
        assert(has_route(first, sl.peer_id));
        let x = choose|x: int| 0 <= x < first.len() && (#[trigger] first[x]).peer_id == sl.peer_id;
        assert(fl.peer_id == sl.peer_id) by {
            if x < first.len() - 1 {
                assert(first[x].peer_id < first[first.len() - 1].peer_id);
            }
            if y < second.len() - 1 {
                assert(second[y].peer_id < second[second.len() - 1].peer_id);
            }
        }
        let f = first.drop_last();
        let g = second.drop_last();
        assert forall|d: PeerId| has_route(f, d) <==> has_route(g, d) by {
            if has_route(f, d) {
                let a = choose|a: int| 0 <= a < f.len() && (#[trigger] f[a]).peer_id == d;
                assert(first[a].peer_id == d);
                assert(first[a].peer_id < first[first.len() - 1].peer_id);
                assert(has_route(first, d));
                let b = choose|b: int| 0 <= b < second.len() && (#[trigger] second[b]).peer_id == d;
                assert(b < second.len() - 1);
                assert(g[b].peer_id == d);
            }
            if has_route(g, d) {
                let b = choose|b: int| 0 <= b < g.len() && (#[trigger] g[b]).peer_id == d;
                assert(second[b].peer_id == d);
                assert(second[b].peer_id < second[second.len() - 1].peer_id);
                assert(has_route(second, d));
                let a = choose|a: int| 0 <= a < first.len() && (#[trigger] first[a]).peer_id == d;
                assert(a < first.len() - 1);
                assert(f[a].peer_id == d);
            }
        }
        assert(ordered(f)) by {
            assert forall|i: int, j: int| 0 <= i < j < f.len() implies f[i].peer_id
                < f[j].peer_id by {
                assert(first[i].peer_id < first[j].peer_id);
            }
        }
        assert(ordered(g)) by {
            assert forall|i: int, j: int| 0 <= i < j < g.len() implies g[i].peer_id
                < g[j].peer_id by {
                assert(second[i].peer_id < second[j].peer_id);
            }
        }
        lemma_same_destinations(f, g);
        assert forall|i: int| 0 <= i < first.len() implies (#[trigger] first[i]).peer_id
            == second[i].peer_id by {
            if i < f.len() {
                assert(f[i].peer_id == g[i].peer_id);
            }
        }
    }
}

/// Two routes to the same destination that both are as `route_ok` says are
/// the same.
pub proof fn lemma_route_unique(
    local: PeerId,
    conns: Seq<PeerConnection>,
    held: Map<PeerId, LinkEntry>,
    a: &Route,
    b: &Route,
)
    requires
        route_ok(local, conns, held, a),
        route_ok(local, conns, held, b),
        a.peer_id == b.peer_id,
    ensures
        a.same(b),
{
    let m = route_mesh(local, conns, held);
    let la = live(conns).filter(leads_to(a.next_hop_peer_id));
    let lb = live(conns).filter(leads_to(b.next_hop_peer_id));
    let ra = route_rank(a, measured_latency(la));
    let rb = route_rank(b, measured_latency(lb));
    let pa = choose|p: Path| reaches(m, p, a.peer_id) && p.rank() == ra;
    let pb = choose|p: Path| reaches(m, p, b.peer_id) && p.rank() == rb;
    assert(rank_le(ra, pb.rank()));
    assert(rank_le(rb, pa.rank()));
    assert(a.next_hop_peer_id == b.next_hop_peer_id);
    assert(a.cost == b.cost);
}

/// The route table is a function of the registered connections and of the
/// link states held: two tables computed from the same of both agree in
/// length and, place by place, in every field.
pub proof fn lemma_route_table_unique(
    local: PeerId,
    conns: Seq<PeerConnection>,
    held: Map<PeerId, LinkEntry>,
    first: Seq<Route>,
    second: Seq<Route>,
)
    requires
        is_route_table(local, conns, held, first),
        is_route_table(local, conns, held, second),
    ensures
        first.len() == second.len(),
        forall|i: int| 0 <= i < first.len() ==> (#[trigger] first[i]).same(&second[i]),
{
    assert forall|d: PeerId| has_route(first, d) <==> has_route(second, d) by {
        let m = route_mesh(local, conns, held);
        assert(has_route(first, d) <==> d != local && reachable(m, d));
        assert(has_route(second, d) <==> d != local && reachable(m, d));
    }
    lemma_same_destinations(first, second);
    assert forall|i: int| 0 <= i < first.len() implies (#[trigger] first[i]).same(&second[i]) by {
        assert(route_ok(local, conns, held, &first[i]));
        assert(route_ok(local, conns, held, &second[i]));
        lemma_route_unique(local, conns, held, &first[i], &second[i]);
    }
}

/// The order in which link states of different origins arrive does not
/// show in the route table: after two batches that hold, for every origin,
/// the same link states of that origin in the same order, the route tables
/// are the same.
pub proof fn lemma_routes_ignore_interleaving(
    local: PeerId,
    conns: Seq<PeerConnection>,
    held: Map<PeerId, LinkEntry>,
    first_batch: Seq<LinkState>,
    second_batch: Seq<LinkState>,
    first: Seq<Route>,
    second: Seq<Route>,
)
    requires
        forall|o: PeerId|
            first_batch.filter(reported_by(o)) == second_batch.filter(reported_by(o)),
        is_route_table(local, conns, delivered_all(held, first_batch), first),
        is_route_table(local, conns, delivered_all(held, second_batch), second),
    ensures
        first.len() == second.len(),
        forall|i: int| 0 <= i < first.len() ==> (#[trigger] first[i]).same(&second[i]),
{
    lemma_delivery_order(held, first_batch, second_batch);
    lemma_route_table_unique(local, conns, delivered_all(held, first_batch), first, second);
}

/// A node that no path leads to has no route: it is absent from the table,
/// not listed with some cost that stands for "unreachable".
pub proof fn lemma_unreachable_has_no_route(
    local: PeerId,
    conns: Seq<PeerConnection>,
    held: Map<PeerId, LinkEntry>,
    routes: Seq<Route>,
    dest: PeerId,
)
    requires
        is_route_table(local, conns, held, routes),
        !reachable(route_mesh(local, conns, held), dest),
    ensures
        forall|i: int| 0 <= i < routes.len() ==> (#[trigger] routes[i]).peer_id != dest,
{
    assert(!has_route(routes, dest));
}

/// Every entry of `held` is as `entry_ok` says.
pub open spec fn held_ok(held: Map<PeerId, LinkEntry>) -> bool {
    forall|o: PeerId| #[trigger] held.contains_key(o) ==> entry_ok(held[o])
}

/// What the cost of the route `r` means: it does not lead to the local node;
/// it costs at least 1; it costs exactly 1 where its destination is one of
/// the direct neighbours `ids`, and nowhere else; and at cost 1 its
/// destination is its next hop.
pub open spec fn direct_ok(local: PeerId, ids: Seq<PeerId>, r: Route) -> bool {
    &&& r.peer_id != local
    &&& r.cost >= 1
    &&& r.cost == 1 <==> ids.contains(r.peer_id)
    &&& r.cost == 1 ==> r.next_hop_peer_id == r.peer_id
}

/// What the costs of a route table mean: no route leads to the local node;
/// every route costs at least 1; a route costs exactly 1 where its
/// destination is a direct neighbour, and nowhere else; and a route of cost
/// 1 has its destination as the next hop.
pub proof fn lemma_direct_routes(
    local: PeerId,
    conns: Seq<PeerConnection>,
    held: Map<PeerId, LinkEntry>,
    routes: Seq<Route>,
)
    requires
        is_route_table(local, conns, held, routes),
        held_ok(held),
    ensures
        forall|i: int|
            0 <= i < routes.len() ==> direct_ok(local, neighbors(live(conns)), #[trigger] routes[i]),
{
    let m = route_mesh(local, conns, held);
    let alive = live(conns);
    assert(links_positive(m)) by {
        assert forall|o: PeerId| #[trigger] m.links.contains_key(o) implies crate::link_state::well_formed(
            m.links[o],
        ) by {
            assert(held.contains_key(o));
            assert(entry_ok(held[o]));
        }
    }
    assert forall|i: int| 0 <= i < routes.len() implies direct_ok(
        local,
        neighbors(alive),
        #[trigger] routes[i],
    ) by {
        let r = routes[i];
        let d = r.peer_id;
        assert(has_route(routes, d));
        assert(route_ok(local, conns, held, &routes[i]));
        let link = alive.filter(leads_to(r.next_hop_peer_id));
        let rank = route_rank(&r, measured_latency(link));
        let p = choose|p: Path| reaches(m, p, d) && p.rank() == rank;
        lemma_cost_at_least_length(m, p);
        if r.cost == 1 {
            assert(p.steps.len() == 0);
            assert(m.hops.contains(p.first));
            let a = choose|a: int| 0 <= a < m.hops.len() && m.hops[a] == p.first;
            assert(neighbors(alive)[a] == d);
        }
        if neighbors(alive).contains(d) {
            let a = choose|a: int| 0 <= a < neighbors(alive).len() && neighbors(alive)[a] == d;
            let q = Path { first: m.hops[a], steps: Seq::empty() };
            assert(m.hops[a].peer_id == d);
            assert(is_path(m, q));
            assert(reaches(m, q, d));
            assert(rank_le(rank, q.rank()));
        }
    }
}

} // verus!
