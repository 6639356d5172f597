//! The read-only queries: the local node, its peers, its routes, and the
//! join of peers and routes.

use crate::model::{NodeInfo, PeerId, PeerInfo, PeerRoutePair, Route};
use crate::peer_manager::PeerManager;
use crate::peer_table::{is_peer_list, live};
use crate::routes::{has_route, ordered};
use crate::stats::{collect_items, is_report, PeerTableItem};
use vstd::prelude::*;

verus! {

/// Whether two entries of a peer list say the same.
pub open spec fn same_peer(a: &PeerInfo, b: &PeerInfo) -> bool {
    a.peer_id == b.peer_id && a.conns@ == b.conns@
}

/// Holds of the peers that `routes` has no route to.
pub open spec fn unrouted(routes: Seq<Route>) -> spec_fn(PeerInfo) -> bool {
    |p: PeerInfo| !has_route(routes, p.peer_id)
}

/// Whether `peer` is what the join puts beside a route to `dest`: the first
/// entry of `peers` for `dest`, or nothing where `peers` has none.
pub open spec fn joined_peer(peers: Seq<PeerInfo>, dest: PeerId, peer: Option<PeerInfo>) -> bool {
    match peer {
        Some(p) => exists|k: int|
            0 <= k < peers.len() && (#[trigger] peers[k]).peer_id == dest && same_peer(&p, &peers[k])
                && forall|j: int| 0 <= j < k ==> (#[trigger] peers[j]).peer_id != dest,
        None => forall|k: int| 0 <= k < peers.len() ==> (#[trigger] peers[k]).peer_id != dest,
    }
}

/// Whether `pairs` is the join of `peers` and `routes`: first one pair for
/// each route, in the order of the routes, with the peer of the same
/// identifier beside it where there is one; then one pair without a route
/// for each peer that no route leads to, in the order of the peers.
pub open spec fn is_join(
    peers: Seq<PeerInfo>,
    routes: Seq<Route>,
    pairs: Seq<PeerRoutePair>,
) -> bool {
    let rest = peers.filter(unrouted(routes));
    &&& pairs.len() == routes.len() + rest.len()
    &&& forall|i: int|
        0 <= i < routes.len() ==> {
            &&& (#[trigger] pairs[i]).route matches Some(r) && r.same(&routes[i])
            &&& joined_peer(peers, routes[i].peer_id, pairs[i].peer)
        }
    &&& forall|j: int|
        0 <= j < rest.len() ==> {
            &&& (#[trigger] pairs[routes.len() + j]).route is None
            &&& pairs[routes.len() + j].peer matches Some(p) && same_peer(&p, &rest[j])
        }
}

/// Whether `routes` has a route to `dest`.
pub fn routes_to(routes: &Vec<Route>, dest: PeerId) -> (found: bool)
    ensures
        found == has_route(routes@, dest),
{
    let mut i: usize = 0;
    while i < routes.len()
        invariant
            i <= routes.len(),
            forall|j: int| 0 <= j < i ==> (#[trigger] routes@[j]).peer_id != dest,
        decreases routes.len() - i,
    {
        if routes[i].peer_id == dest {
            return true;
        }
        i += 1;
    }
    false
}

/// The first entry of `peers` for `peer_id`.
pub fn first_peer(peers: &Vec<PeerInfo>, peer_id: PeerId) -> (r: Option<PeerInfo>)
    ensures
        joined_peer(peers@, peer_id, r),
{
    let mut k: usize = 0;
    while k < peers.len()
        invariant
            k <= peers.len(),
            forall|j: int| 0 <= j < k ==> (#[trigger] peers@[j]).peer_id != peer_id,
        decreases peers.len() - k,
    {
        if peers[k].peer_id == peer_id {
            let p = peers[k].clone();
            proof {
                assert(same_peer(&p, &peers@[k as int]));
            }
            return Some(p);
        }
        k += 1;
    }
    None
}

/// Joins the peers measured directly with the routes computed by their
/// identifier. A peer that no route leads to is not left out: it comes
/// after the routes, without a route beside it.
pub fn list_peer_route_pair(peers: Vec<PeerInfo>, routes: Vec<Route>) -> (pairs: Vec<PeerRoutePair>)
    ensures
        is_join(peers@, routes@, pairs@),
{
    let mut pairs: Vec<PeerRoutePair> = Vec::new();
    let mut i: usize = 0;
    while i < routes.len()
        invariant
            i <= routes.len(),
            pairs@.len() == i,
            forall|x: int|
                0 <= x < i ==> {
                    &&& (#[trigger] pairs@[x]).route matches Some(r) && r.same(&routes@[x])
                    &&& joined_peer(peers@, routes@[x].peer_id, pairs@[x].peer)
                },
        decreases routes.len() - i,
    {
        let route = routes[i].clone();
        let peer = first_peer(&peers, routes[i].peer_id);
        pairs.push(PeerRoutePair { route: Some(route), peer });
        i += 1;
    }
    let ghost n = routes@.len() as int;
    let ghost pred = unrouted(routes@);
    let mut k: usize = 0;
    proof {
        assert(peers@.take(0).filter(pred) =~= Seq::<PeerInfo>::empty()) by {
            reveal(Seq::filter);
        }
    }
    while k < peers.len()
        invariant
            k <= peers.len(),
            n == routes@.len(),
            pred == unrouted(routes@),
            pairs@.len() == n + peers@.take(k as int).filter(pred).len(),
            forall|x: int|
                0 <= x < n ==> {
                    &&& (#[trigger] pairs@[x]).route matches Some(r) && r.same(&routes@[x])
                    &&& joined_peer(peers@, routes@[x].peer_id, pairs@[x].peer)
                },
            forall|j: int|
                0 <= j < peers@.take(k as int).filter(pred).len() ==> {
                    &&& (#[trigger] pairs@[n + j]).route is None
                    &&& pairs@[n + j].peer matches Some(p) && same_peer(
                        &p,
                        &peers@.take(k as int).filter(pred)[j],
                    )
                },
        decreases peers.len() - k,
    {
        let ghost before = peers@.take(k as int).filter(pred);
        let ghost old_pairs = pairs@;
        proof {
            let prefix = peers@.take(k as int);
            assert(peers@.take(k + 1) =~= prefix.push(peers@[k as int]));
            prefix.lemma_filter_push(peers@[k as int], pred);
        }
        if !routes_to(&routes, peers[k].peer_id) {
            let p = peers[k].clone();
            pairs.push(PeerRoutePair { route: None, peer: Some(p) });
            proof {
                let after = peers@.take(k + 1).filter(pred);
                assert(after == before.push(peers@[k as int]));
                assert forall|j: int| 0 <= j < after.len() implies {
                    &&& (#[trigger] pairs@[n + j]).route is None
                    &&& pairs@[n + j].peer matches Some(q) && same_peer(&q, &after[j])
                } by {
                    if j < before.len() {
                        assert(pairs@[n + j] == old_pairs[n + j]);
                        assert(after[j] == before[j]);
                    }
                }
                assert forall|x: int| 0 <= x < n implies {
                    &&& (#[trigger] pairs@[x]).route matches Some(r) && r.same(&routes@[x])
                    &&& joined_peer(peers@, routes@[x].peer_id, pairs@[x].peer)
                } by {
                    assert(pairs@[x] == old_pairs[x]);
                }
            }
        }
        k += 1;
    }
    proof {
        assert(peers@.take(peers@.len() as int) =~= peers@);
    }
    pairs
}

/// No two entries of `peers` are for the same peer.
pub open spec fn distinct_peers(peers: Seq<PeerInfo>) -> bool {
    forall|i: int, j: int|
        0 <= i < j < peers.len() ==> (#[trigger] peers[i]).peer_id != (#[trigger] peers[j]).peer_id
}

/// Whether `pair` has the peer `peer_id` on its peer side.
pub open spec fn holds_peer(pair: PeerRoutePair, peer_id: PeerId) -> bool {
    match pair.peer {
        Some(p) => p.peer_id == peer_id,
        None => false,
    }
}

/// Whether `pair` has an entry that says the same as `peer` on its peer
/// side.
pub open spec fn shows_peer(pair: PeerRoutePair, peer: PeerInfo) -> bool {
    match pair.peer {
        Some(p) => same_peer(&p, &peer),
        None => false,
    }
}

/// Whether one of `pairs` shows `peer`.
pub open spec fn recovered(pairs: Seq<PeerRoutePair>, peer: PeerInfo) -> bool {
    exists|i: int| 0 <= i < pairs.len() && #[trigger] shows_peer(pairs[i], peer)
}

/// Leaving entries out of a list of distinct peers leaves distinct peers.
pub proof fn lemma_filter_distinct(peers: Seq<PeerInfo>, pred: spec_fn(PeerInfo) -> bool)
    requires
        distinct_peers(peers),
    ensures
        distinct_peers(peers.filter(pred)),
    decreases peers.len(),
{
    reveal(Seq::filter);
    if peers.len() > 0 {
        let head = peers.drop_last();
        lemma_filter_distinct(head, pred);
        let rest = head.filter(pred);
        let all = peers.filter(pred);
        assert forall|i: int, j: int| 0 <= i < j < all.len() implies (#[trigger] all[i]).peer_id != (
        #[trigger] all[j]).peer_id by {
            if j >= rest.len() {
                assert(rest.contains(rest[i]));
                head.lemma_filter_contains_rev(pred, rest[i]);
                let k = choose|k: int| 0 <= k < head.len() && head[k] == rest[i];
                assert(peers[k] == rest[i]);
                assert(all[j] == peers[peers.len() - 1]);
                assert(peers[k].peer_id != peers[peers.len() - 1].peer_id);
            } else {
                assert(all[i] == rest[i] && all[j] == rest[j]);
            }
        }
    }
}

/// The join recovers every direct neighbour exactly once, whether a route
/// leads to it or not: each peer stands on the peer side of some pair, and
/// no two pairs have the same peer on their peer side.
pub proof fn lemma_join_recovers_neighbors(
    peers: Seq<PeerInfo>,
    routes: Seq<Route>,
    pairs: Seq<PeerRoutePair>,
)
    requires
        is_join(peers, routes, pairs),
        distinct_peers(peers),
        ordered(routes),
    ensures
        forall|k: int| 0 <= k < peers.len() ==> #[trigger] recovered(pairs, peers[k]),
        forall|i: int, j: int, id: PeerId|
            0 <= i < pairs.len() && 0 <= j < pairs.len() && #[trigger] holds_peer(pairs[i], id)
                && #[trigger] holds_peer(pairs[j], id) ==> i == j,
{
    let n = routes.len() as int;
    let pred = unrouted(routes);
    let rest = peers.filter(pred);
    lemma_filter_distinct(peers, pred);
    assert forall|k: int| 0 <= k < peers.len() implies #[trigger] recovered(pairs, peers[k]) by {
        let id = peers[k].peer_id;
        if has_route(routes, id) {
            let i = choose|i: int| 0 <= i < routes.len() && (#[trigger] routes[i]).peer_id == id;
            assert(joined_peer(peers, routes[i].peer_id, pairs[i].peer));
            match pairs[i].peer {
                Some(p) => {
                    let k0 = choose|k0: int|
                        0 <= k0 < peers.len() && (#[trigger] peers[k0]).peer_id == id && same_peer(
                            &p,
                            &peers[k0],
                        ) && forall|j: int| 0 <= j < k0 ==> (#[trigger] peers[j]).peer_id != id;
                    if k0 < k {
                        assert(peers[k0].peer_id != peers[k].peer_id);
                    } else if k < k0 {
                        assert(peers[k].peer_id != peers[k0].peer_id);
                    }
                    assert(shows_peer(pairs[i], peers[k]));
                },
                None => {
                    assert(peers[k].peer_id != id);
                },
            }
        } else {
            assert(pred(peers[k]));
            peers.lemma_filter_contains(pred, k);
            let j = choose|j: int| 0 <= j < rest.len() && rest[j] == peers[k];
            assert(pairs[n + j].route is None);
            assert(shows_peer(pairs[n + j], peers[k]));
        }
    }
    assert forall|i: int, j: int, id: PeerId|
        0 <= i < pairs.len() && 0 <= j < pairs.len() && #[trigger] holds_peer(pairs[i], id)
            && #[trigger] holds_peer(pairs[j], id) implies i == j by {
        lemma_pair_peer(peers, routes, pairs, i, id);
        lemma_pair_peer(peers, routes, pairs, j, id);
        if i < n && j < n {
            if i < j {
                assert(routes[i].peer_id < routes[j].peer_id);
            } else if j < i {
                assert(routes[j].peer_id < routes[i].peer_id);
            }
        } else if i >= n && j >= n {
            if i < j {
                assert(rest[i - n].peer_id != rest[j - n].peer_id);
            } else if j < i {
                assert(rest[j - n].peer_id != rest[i - n].peer_id);
            }
        }
    }
}

/// The peer side of a pair of the join: beside a route it is the peer that
/// the route leads to; after the routes it is a peer that no route leads to.
pub proof fn lemma_pair_peer(
    peers: Seq<PeerInfo>,
    routes: Seq<Route>,
    pairs: Seq<PeerRoutePair>,
    i: int,
    id: PeerId,
)
    requires
        is_join(peers, routes, pairs),
        0 <= i < pairs.len(),
        holds_peer(pairs[i], id),
    ensures
        i < routes.len() ==> routes[i].peer_id == id && has_route(routes, id),
        i >= routes.len() ==> peers.filter(unrouted(routes))[i - routes.len()].peer_id == id
            && !has_route(routes, id),
{
    let n = routes.len() as int;
    let pred = unrouted(routes);
    let rest = peers.filter(pred);
    if i < n {
        assert(joined_peer(peers, routes[i].peer_id, pairs[i].peer));
    } else {
        let j = i - n;
        assert(pairs[n + j].route is None);
        peers.lemma_filter_pred(pred, j);
        assert(pred(rest[j]));
    }
}

/// Why a query has no answer.
#[derive(Clone, Copy, Debug, PartialEq, Eq, Structural)]
pub enum QueryError {
    /// No local node has been set up. An answer that is empty is not this.
    NotReady,
}

/// Whether `routes` is a copy of the route table `table`.
pub open spec fn same_routes(routes: Seq<Route>, table: Seq<Route>) -> bool {
    &&& routes.len() == table.len()
    &&& forall|i: int| 0 <= i < routes.len() ==> (#[trigger] routes[i]).same(&table[i])
}

/// How the local node describes itself; an error where no node has been set
/// up. The answer does not depend on what the node has learned of the mesh.
pub fn show_node_info(mgr: Option<&PeerManager>) -> (r: Result<NodeInfo, QueryError>)
    ensures
        mgr matches Some(m) ==> r == Ok::<NodeInfo, QueryError>(m.node()),
        mgr is None ==> r == Err::<NodeInfo, QueryError>(QueryError::NotReady),
{
    match mgr {
        Some(m) => Ok(m.get_node_info()),
        None => Err(QueryError::NotReady),
    }
}

/// The direct neighbours with their live connections; an error where no
/// node has been set up.
pub fn list_peers(mgr: Option<&PeerManager>) -> (r: Result<Vec<PeerInfo>, QueryError>)
    requires
        mgr matches Some(m) ==> m.wf(),
    ensures
        mgr matches Some(m) ==> r is Ok && is_peer_list(r->Ok_0@, live(m.conns())),
        mgr is None ==> r == Err::<Vec<PeerInfo>, QueryError>(QueryError::NotReady),
{
    match mgr {
        Some(m) => Ok(m.list_peers()),
        None => Err(QueryError::NotReady),
    }
}

/// The route table as last computed; an error where no node has been set
/// up.
pub fn list_routes(mgr: Option<&PeerManager>) -> (r: Result<Vec<Route>, QueryError>)
    requires
        mgr matches Some(m) ==> m.wf(),
    ensures
        mgr matches Some(m) ==> r is Ok && same_routes(r->Ok_0@, m.route_table()),
        mgr is None ==> r == Err::<Vec<Route>, QueryError>(QueryError::NotReady),
{
    match mgr {
        Some(m) => Ok(m.list_routes()),
        None => Err(QueryError::NotReady),
    }
}

/// Whether `items` are the status report of the manager `m`: the rows for
/// its node and for the join of a snapshot of its peers with a snapshot of
/// its routes.
pub open spec fn is_stats(m: &PeerManager, cancelled: bool, items: Seq<PeerTableItem>) -> bool {
    exists|list: Seq<PeerInfo>, routes: Seq<Route>, pairs: Seq<PeerRoutePair>|
        {
            &&& is_peer_list(list, live(m.conns()))
            &&& same_routes(routes, m.route_table())
            &&& #[trigger] is_join(list, routes, pairs)
            &&& is_report(&m.node(), pairs, cancelled, items)
        }
}

/// The status report: nothing where no node has been set up, else the row
/// of the local node followed by the rows of the peers and routes joined.
pub fn get_stats(mgr: Option<&PeerManager>, cancelled: bool) -> (r: Option<Vec<PeerTableItem>>)
    requires
        mgr matches Some(m) ==> m.wf(),
    ensures
        mgr matches Some(m) ==> r is Some && is_stats(m, cancelled, r->Some_0@),
        mgr is None ==> r is None,
{
    match mgr {
        Some(m) => {
            let routes = m.list_routes();
            let peers = m.list_peers();
            let ghost list = peers@;
            let ghost copied = routes@;
            let pairs = list_peer_route_pair(peers, routes);
            let info = m.get_node_info();
            let items = collect_items(&info, &pairs, cancelled);
            proof {
                assert(is_join(list, copied, pairs@));
                assert(is_report(&m.node(), pairs@, cancelled, items@));
            }
            Some(items)
        },
        None => None,
    }
}

} // verus!
