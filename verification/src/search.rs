//! The state of the shortest-path search and what holds of it while the
//! search runs.

use crate::model::{latency_rank, Neighbor, PeerId};
use crate::paths::{
    can_step, hop_rank, is_path, lemma_extend, lemma_prefix, Mesh, Path, Rank, rank_le, rank_plus,
    reaches,
};
use vstd::prelude::*;

verus! {

/// What the search knows of the best path to a node so far.
#[derive(Clone, Copy, Debug, PartialEq, Eq, Structural)]
pub struct Label {
    pub cost: u64,
    pub latency_us: Option<u64>,
    pub hop: PeerId,
}

/// By what a label is compared.
pub open spec fn rank_of(l: Label) -> Rank {
    Rank { cost: l.cost as int, latency: latency_rank(l.latency_us), hop: l.hop as int }
}

/// The state of the search: the nodes, and for each of them the best label
/// found so far, whether it is settled, and a path that has that label.
pub struct Search {
    pub ids: Seq<PeerId>,
    pub best: Seq<Option<Label>>,
    pub done: Seq<bool>,
    pub wit: Seq<Path>,
}

/// The place of `id` among `ids`.
pub open spec fn slot(ids: Seq<PeerId>, id: PeerId) -> int {
    choose|i: int| 0 <= i < ids.len() && ids[i] == id
}

/// The identifiers stand in strictly increasing order.
pub open spec fn increasing(ids: Seq<PeerId>) -> bool {
    forall|i: int, j: int| 0 <= i < j < ids.len() ==> ids[i] < ids[j]
}

/// The node at place `t` has a label that is at least as good as `r`.
pub open spec fn covers(s: Search, t: int, r: Rank) -> bool {
    0 <= t < s.ids.len() && s.best[t] is Some && rank_le(rank_of(s.best[t]->0), r)
}

/// The parts of the state fit together.
pub open spec fn shaped(s: Search) -> bool {
    &&& increasing(s.ids)
    &&& s.best.len() == s.ids.len()
    &&& s.done.len() == s.ids.len()
    &&& s.wit.len() == s.ids.len()
}

/// The label of the node at place `i`, where it has one, is the rank of a
/// path to it.
pub open spec fn witness_ok(m: Mesh, s: Search, i: int) -> bool {
    s.best[i] is Some ==> reaches(m, s.wit[i], s.ids[i]) && s.wit[i].rank() == rank_of(
        s.best[i]->0,
    )
}

/// Every label is the rank of a path to its node.
pub open spec fn witnessed(m: Mesh, s: Search) -> bool {
    forall|i: int| 0 <= i < s.ids.len() ==> #[trigger] witness_ok(m, s, i)
}

/// No path to the node at place `i` is better than its label.
pub open spec fn optimal_at(m: Mesh, s: Search, i: int) -> bool {
    forall|q: Path| #[trigger] reaches(m, q, s.ids[i]) ==> rank_le(rank_of(s.best[i]->0), q.rank())
}

/// Every link from the node at place `u` has been followed: where it leads,
/// the label is at least as good as the label of `u` with the cost of the
/// link added.
pub open spec fn relaxed_at(m: Mesh, s: Search, u: int) -> bool {
    forall|e: Neighbor| #[trigger]
        can_step(m, s.ids[u], e) ==> covers(
            s,
            slot(s.ids, e.peer_id),
            rank_plus(rank_of(s.best[u]->0), e.cost as int),
        )
}

/// Every settled node has a label, no path to it is better, and its links
/// have been followed.
pub open spec fn settled(m: Mesh, s: Search) -> bool {
    forall|i: int|
        0 <= i < s.ids.len() && #[trigger] s.done[i] ==> s.best[i] is Some && optimal_at(m, s, i)
            && relaxed_at(m, s, i)
}

/// The direct neighbour at place `a` has a label at least as good as the
/// first hop to it.
pub open spec fn hop_covered(m: Mesh, s: Search, a: int) -> bool {
    covers(s, slot(s.ids, m.hops[a].peer_id), hop_rank(m.hops[a]))
}

/// Every direct neighbour has a label at least as good as the first hop to
/// it.
pub open spec fn seeded(m: Mesh, s: Search) -> bool {
    forall|a: int| 0 <= a < m.hops.len() ==> #[trigger] hop_covered(m, s, a)
}

/// Every node that a path can visit is among `ids`.
pub open spec fn closed_under(m: Mesh, ids: Seq<PeerId>) -> bool {
    &&& forall|a: int| 0 <= a < m.hops.len() ==> ids.contains((#[trigger] m.hops[a]).peer_id)
    &&& forall|o: PeerId, e: Neighbor| #[trigger] can_step(m, o, e) ==> ids.contains(e.peer_id)
}

/// No label costs more than `limit`.
pub open spec fn bounded(s: Search, limit: int) -> bool {
    forall|i: int|
        0 <= i < s.ids.len() && (#[trigger] s.best[i]) is Some ==> (s.best[i]->0).cost <= limit
}

/// Every node that has a label is settled.
pub open spec fn exhausted(s: Search) -> bool {
    forall|i: int| 0 <= i < s.ids.len() && (#[trigger] s.best[i]) is Some ==> s.done[i]
}

/// The number of nodes that are not settled.
pub open spec fn undone(done: Seq<bool>) -> nat
    decreases done.len(),
{
    if done.len() == 0 {
        0
    } else {
        undone(done.drop_last()) + if done.last() {
            0nat
        } else {
            1nat
        }
    }
}

/// In increasing identifiers each has one place.
pub proof fn lemma_slot(ids: Seq<PeerId>, i: int)
    requires
        increasing(ids),
        0 <= i < ids.len(),
    ensures
        slot(ids, ids[i]) == i,
{
    let j = slot(ids, ids[i]);
    assert(0 <= j < ids.len() && ids[j] == ids[i]);
    if j < i {
        assert(ids[j] < ids[i]);
    } else if i < j {
        assert(ids[i] < ids[j]);
    }
}

/// An identifier among `ids` stands at its place.
pub proof fn lemma_slot_of(ids: Seq<PeerId>, id: PeerId)
    requires
        ids.contains(id),
    ensures
        0 <= slot(ids, id) < ids.len(),
        ids[slot(ids, id)] == id,
{
    let i = choose|i: int| 0 <= i < ids.len() && ids[i] == id;
    assert(0 <= i < ids.len() && ids[i] == id);
}

/// Strictly increasing identifiers of 32 bits are at most 2^32 many.
pub proof fn lemma_increasing_len(ids: Seq<PeerId>)
    requires
        increasing(ids),
    ensures
        ids.len() <= 0x1_0000_0000,
{
    if ids.len() > 0 {
        lemma_at_least_index(ids, ids.len() - 1);
    }
}

/// In strictly increasing identifiers, the one at place `i` is at least `i`.
pub proof fn lemma_at_least_index(ids: Seq<PeerId>, i: int)
    requires
        increasing(ids),
        0 <= i < ids.len(),
    ensures
        ids[i] >= i,
    decreases i,
{
    if i > 0 {
        lemma_at_least_index(ids, i - 1);
        assert(ids[i - 1] < ids[i]);
    }
}

/// Settling a node leaves one node less to settle.
pub proof fn lemma_undone_update(done: Seq<bool>, u: int)
    requires
        0 <= u < done.len(),
        !done[u],
    ensures
        undone(done.update(u, true)) + 1 == undone(done),
        undone(done) <= done.len(),
    decreases done.len(),
{
    let last = done.len() - 1;
    if u == last {
        assert(done.update(u, true).drop_last() =~= done.drop_last());
        lemma_undone_len(done.drop_last());
    } else {
        lemma_undone_update(done.drop_last(), u);
        assert(done.update(u, true).drop_last() =~= done.drop_last().update(u, true));
    }
}

/// No more nodes are left to settle than there are nodes.
pub proof fn lemma_undone_len(done: Seq<bool>)
    ensures
        undone(done) <= done.len(),
    decreases done.len(),
{
    if done.len() > 0 {
        lemma_undone_len(done.drop_last());
    }
}

/// Where every link of every settled node has been followed, a path either
/// ends at a node whose label is at least as good as the path, or some node
/// that is not settled has a label at least as good as the path.
pub proof fn lemma_frontier(m: Mesh, s: Search, q: Path)
    requires
        shaped(s),
        closed_under(m, s.ids),
        seeded(m, s),
        settled(m, s),
        is_path(m, q),
    ensures
        s.ids.contains(q.end()),
        covers(s, slot(s.ids, q.end()), q.rank()) || exists|x: int|
            0 <= x < s.ids.len() && !s.done[x] && #[trigger] covers(s, x, q.rank()),
    decreases q.steps.len(),
{
    if q.steps.len() == 0 {
        let a = choose|a: int| 0 <= a < m.hops.len() && m.hops[a] == q.first;
        assert(m.hops[a] == q.first);
        assert(s.ids.contains(m.hops[a].peer_id));
        assert(hop_covered(m, s, a));
        assert(q.rank() == hop_rank(q.first));
    } else {
        let p = q.prefix();
        let e = q.steps.last();
        lemma_prefix(m, q);
        lemma_frontier(m, s, p);
        assert(can_step(m, p.end(), e));
        assert(s.ids.contains(e.peer_id));
        lemma_slot_of(s.ids, p.end());
        let t = slot(s.ids, p.end());
        if covers(s, t, p.rank()) {
            if s.done[t] {
                assert(relaxed_at(m, s, t));
                assert(can_step(m, s.ids[t], e));
                assert(covers(
                    s,
                    slot(s.ids, e.peer_id),
                    rank_plus(rank_of(s.best[t]->0), e.cost as int),
                ));
            } else {
                assert(covers(s, t, q.rank()));
            }
        } else {
            let x = choose|x: int|
                0 <= x < s.ids.len() && !s.done[x] && #[trigger] covers(s, x, p.rank());
            assert(covers(s, x, q.rank()));
        }
    }
}

/// What holds of the state once every direct neighbour has its first
/// label, from then on.
pub open spec fn search_ok(m: Mesh, s: Search) -> bool {
    &&& shaped(s)
    &&& closed_under(m, s.ids)
    &&& witnessed(m, s)
    &&& settled(m, s)
    &&& seeded(m, s)
}

/// The state with a better label for the node at place `v`.
pub open spec fn with_label(s: Search, v: int, cand: Label, path: Path) -> Search {
    Search { best: s.best.update(v, Some(cand)), wit: s.wit.update(v, path), ..s }
}

/// The state with the node at place `u` settled.
pub open spec fn with_settled(s: Search, u: int) -> Search {
    Search { done: s.done.update(u, true), ..s }
}

/// Giving a node a better label that is the rank of a path to it keeps what
/// holds of the state; the node is not a settled one; and whatever a label
/// was at least as good as, it still is.
pub proof fn lemma_relax(m: Mesh, s: Search, v: int, cand: Label, path: Path, limit: int)
    requires
        shaped(s),
        witnessed(m, s),
        settled(m, s),
        bounded(s, limit),
        0 <= v < s.ids.len(),
        reaches(m, path, s.ids[v]),
        path.rank() == rank_of(cand),
        cand.cost <= limit,
        s.best[v] is None || !rank_le(rank_of(s.best[v]->0), rank_of(cand)),
    ensures
        !s.done[v],
        shaped(with_label(s, v, cand, path)),
        witnessed(m, with_label(s, v, cand, path)),
        settled(m, with_label(s, v, cand, path)),
        bounded(with_label(s, v, cand, path), limit),
        forall|t: int, r: Rank| #[trigger]
            covers(s, t, r) ==> covers(with_label(s, v, cand, path), t, r),
{
    let s2 = with_label(s, v, cand, path);
    if s.done[v] {
        assert(optimal_at(m, s, v));
        assert(reaches(m, path, s.ids[v]));
        assert(false);
    }
    assert forall|t: int, r: Rank| #[trigger] covers(s, t, r) implies covers(s2, t, r) by {
        if t == v {
            assert(s2.best[t] == Some(cand));
        } else {
            assert(s2.best[t] == s.best[t]);
        }
    }
    assert forall|i: int| 0 <= i < s2.ids.len() implies #[trigger] witness_ok(m, s2, i) by {
        if i != v {
            assert(witness_ok(m, s, i));
        }
    }
    assert forall|i: int| 0 <= i < s2.ids.len() && #[trigger] s2.done[i] implies s2.best[i] is Some
        && optimal_at(m, s2, i) && relaxed_at(m, s2, i) by {
        assert(s.done[i]);
        assert(i != v);
        assert(s2.best[i] == s.best[i]);
        assert(optimal_at(m, s, i));
        assert(relaxed_at(m, s, i));
        assert forall|e: Neighbor| #[trigger] can_step(m, s2.ids[i], e) implies covers(
            s2,
            slot(s2.ids, e.peer_id),
            rank_plus(rank_of(s2.best[i]->0), e.cost as int),
        ) by {
            assert(covers(s, slot(s.ids, e.peer_id), rank_plus(rank_of(s.best[i]->0), e.cost as int)));
        }
    }
    assert forall|i: int| 0 <= i < s2.ids.len() && (#[trigger] s2.best[i]) is Some implies (
    s2.best[i]->0).cost <= limit by {
        if i != v {
            assert(s.best[i] is Some);
        }
    }
}

/// Settling a node whose label no path beats and whose links have all been
/// followed keeps what holds of the state.
pub proof fn lemma_settle(m: Mesh, s: Search, u: int)
    requires
        shaped(s),
        witnessed(m, s),
        settled(m, s),
        0 <= u < s.ids.len(),
        s.best[u] is Some,
        optimal_at(m, s, u),
        relaxed_at(m, s, u),
    ensures
        shaped(with_settled(s, u)),
        witnessed(m, with_settled(s, u)),
        settled(m, with_settled(s, u)),
        forall|t: int, r: Rank| #[trigger] covers(s, t, r) ==> covers(with_settled(s, u), t, r),
{
    let s2 = with_settled(s, u);
    assert forall|t: int, r: Rank| #[trigger] covers(s, t, r) implies covers(s2, t, r) by {}
    assert forall|i: int| 0 <= i < s2.ids.len() implies #[trigger] witness_ok(m, s2, i) by {
        assert(witness_ok(m, s, i));
    }
    assert forall|i: int| 0 <= i < s2.ids.len() && #[trigger] s2.done[i] implies s2.best[i] is Some
        && optimal_at(m, s2, i) && relaxed_at(m, s2, i) by {
        if i != u {
            assert(s.done[i]);
        }
        assert(optimal_at(m, s, i));
        assert(relaxed_at(m, s, i));
        assert forall|e: Neighbor| #[trigger] can_step(m, s2.ids[i], e) implies covers(
            s2,
            slot(s2.ids, e.peer_id),
            rank_plus(rank_of(s2.best[i]->0), e.cost as int),
        ) by {
            assert(covers(s, slot(s.ids, e.peer_id), rank_plus(rank_of(s.best[i]->0), e.cost as int)));
        }
    }
}

/// No path to the node picked for settling is better than its label.
pub proof fn lemma_pick_is_optimal(m: Mesh, s: Search, u: int)
    requires
        shaped(s),
        closed_under(m, s.ids),
        seeded(m, s),
        settled(m, s),
        0 <= u < s.ids.len(),
        !s.done[u],
        s.best[u] is Some,
        forall|j: int|
            0 <= j < s.ids.len() && !s.done[j] && (#[trigger] s.best[j]) is Some ==> rank_le(
                rank_of(s.best[u]->0),
                rank_of(s.best[j]->0),
            ),
    ensures
        optimal_at(m, s, u),
{
    assert forall|q: Path| #[trigger] reaches(m, q, s.ids[u]) implies rank_le(
        rank_of(s.best[u]->0),
        q.rank(),
    ) by {
        lemma_frontier(m, s, q);
        lemma_slot(s.ids, u);
        if !covers(s, u, q.rank()) {
            let x = choose|x: int|
                0 <= x < s.ids.len() && !s.done[x] && #[trigger] covers(s, x, q.rank());
            assert(s.best[x] is Some);
        }
    }
}

/// Once every node that has a label is settled, every path ends at a node
/// whose label is at least as good as the path.
pub proof fn lemma_exhausted(m: Mesh, s: Search, q: Path)
    requires
        shaped(s),
        closed_under(m, s.ids),
        seeded(m, s),
        settled(m, s),
        exhausted(s),
        is_path(m, q),
    ensures
        s.ids.contains(q.end()),
        covers(s, slot(s.ids, q.end()), q.rank()),
{
    lemma_frontier(m, s, q);
    if !covers(s, slot(s.ids, q.end()), q.rank()) {
        let x = choose|x: int|
            0 <= x < s.ids.len() && !s.done[x] && #[trigger] covers(s, x, q.rank());
        assert(s.best[x] is Some);
    }
}

/// Following the link `e` from the node at place `u` to the node at place
/// `v`, where that gives `v` a better label, keeps what holds of the state.
pub proof fn lemma_follow(
    m: Mesh,
    s: Search,
    u: int,
    e: Neighbor,
    v: int,
    cand: Label,
    limit: int,
)
    requires
        search_ok(m, s),
        bounded(s, limit),
        0 <= u < s.ids.len(),
        !s.done[u],
        s.best[u] is Some,
        can_step(m, s.ids[u], e),
        0 <= v < s.ids.len(),
        s.ids[v] == e.peer_id,
        rank_of(cand) == rank_plus(rank_of(s.best[u]->0), e.cost as int),
        cand.cost <= limit,
        s.best[v] is None || !rank_le(rank_of(s.best[v]->0), rank_of(cand)),
    ensures
        v != u,
        shaped(with_label(s, v, cand, s.wit[u].extend(e))),
        witnessed(m, with_label(s, v, cand, s.wit[u].extend(e))),
        settled(m, with_label(s, v, cand, s.wit[u].extend(e))),
        bounded(with_label(s, v, cand, s.wit[u].extend(e)), limit),
        seeded(m, with_label(s, v, cand, s.wit[u].extend(e))),
        closed_under(m, with_label(s, v, cand, s.wit[u].extend(e)).ids),
        forall|t: int, r: Rank| #[trigger]
            covers(s, t, r) ==> covers(with_label(s, v, cand, s.wit[u].extend(e)), t, r),
        covers(with_label(s, v, cand, s.wit[u].extend(e)), v, rank_of(cand)),
{
    let path = s.wit[u].extend(e);
    let s2 = with_label(s, v, cand, path);
    assert(witness_ok(m, s, u));
    lemma_extend(m, s.wit[u], e);
    assert(reaches(m, path, s.ids[v]));
    assert(path.rank() == rank_of(cand));
    assert(v != u) by {
        if v == u {
            assert(rank_le(rank_of(s.best[u]->0), rank_of(cand)));
        }
    }
    lemma_relax(m, s, v, cand, path, limit);
    lemma_seeded_kept(m, s, s2);
}

/// Where every label is at least as good as before, every direct neighbour
/// still has a label at least as good as the first hop to it.
pub proof fn lemma_seeded_kept(m: Mesh, s: Search, s2: Search)
    requires
        seeded(m, s),
        s2.ids == s.ids,
        forall|t: int, r: Rank| #[trigger] covers(s, t, r) ==> covers(s2, t, r),
    ensures
        seeded(m, s2),
{
    assert forall|a: int| 0 <= a < m.hops.len() implies #[trigger] hop_covered(m, s2, a) by {
        assert(hop_covered(m, s, a));
    }
}

/// Once every link that the node at place `u` reports has been followed,
/// every link that can be followed from it has been.
pub proof fn lemma_links_followed(m: Mesh, s: Search, u: int, links: Seq<Neighbor>)
    requires
        0 <= u < s.ids.len(),
        s.best[u] is Some,
        m.links.contains_key(s.ids[u]) ==> links == m.links[s.ids[u]],
        forall|k: int|
            0 <= k < links.len() ==> covers(
                s,
                slot(s.ids, (#[trigger] links[k]).peer_id),
                rank_plus(rank_of(s.best[u]->0), links[k].cost as int),
            ),
    ensures
        relaxed_at(m, s, u),
{
    assert forall|e: Neighbor| #[trigger] can_step(m, s.ids[u], e) implies covers(
        s,
        slot(s.ids, e.peer_id),
        rank_plus(rank_of(s.best[u]->0), e.cost as int),
    ) by {
        let k = choose|k: int| 0 <= k < links.len() && links[k] == e;
        assert(covers(
            s,
            slot(s.ids, links[k].peer_id),
            rank_plus(rank_of(s.best[u]->0), links[k].cost as int),
        ));
    }
}

} // verus!
