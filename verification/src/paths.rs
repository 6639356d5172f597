//! Paths through the mesh and what it means for one to be the best: the
//! mathematical side of the path computation.

use crate::link_state::well_formed;
use crate::model::{latency_rank, Neighbor, PeerId};
use vstd::prelude::*;

verus! {

/// A direct neighbour as the path computation sees it: a link of cost 1
/// with the latency measured on it.
#[derive(Clone, Copy, Debug, PartialEq, Eq, Structural)]
pub struct Hop {
    pub peer_id: PeerId,
    pub latency_us: Option<u64>,
}

/// The graph that paths are computed in: the local node, its direct
/// neighbours, and the links that the other nodes report.
pub struct Mesh {
    pub local: PeerId,
    pub hops: Seq<Hop>,
    pub links: Map<PeerId, Seq<Neighbor>>,
}

/// A path from the local node: the neighbour it starts with, then the links
/// it follows.
pub struct Path {
    pub first: Hop,
    pub steps: Seq<Neighbor>,
}

/// By what paths are compared: total cost first, then the latency of the
/// first hop, then the identifier of the first hop.
pub struct Rank {
    pub cost: int,
    pub latency: int,
    pub hop: int,
}

/// The sum of the costs of `steps`.
pub open spec fn steps_cost(steps: Seq<Neighbor>) -> int
    decreases steps.len(),
{
    if steps.len() == 0 {
        0
    } else {
        steps_cost(steps.drop_last()) + steps.last().cost as int
    }
}

impl Path {
    /// The node that the path has reached after `i` of its steps.
    pub open spec fn node(self, i: int) -> PeerId {
        if i <= 0 {
            self.first.peer_id
        } else {
            self.steps[i - 1].peer_id
        }
    }

    /// The node that the path leads to.
    pub open spec fn end(self) -> PeerId {
        self.node(self.steps.len() as int)
    }

    /// The total cost: 1 for the first hop, then the cost of each step.
    pub open spec fn cost(self) -> int {
        1 + steps_cost(self.steps)
    }

    /// The path with one more step.
    pub open spec fn extend(self, e: Neighbor) -> Path {
        Path { first: self.first, steps: self.steps.push(e) }
    }

    /// The path without its last step.
    pub open spec fn prefix(self) -> Path {
        Path { first: self.first, steps: self.steps.drop_last() }
    }

    /// By what the path is compared with others.
    pub open spec fn rank(self) -> Rank {
        Rank {
            cost: self.cost(),
            latency: latency_rank(self.first.latency_us),
            hop: self.first.peer_id as int,
        }
    }
}

/// Whether `a` is at least as good as `b`: lower cost, or the same cost and
/// a lower first-hop latency, or both the same and a first hop whose
/// identifier is not larger.
pub open spec fn rank_le(a: Rank, b: Rank) -> bool {
    a.cost < b.cost || (a.cost == b.cost && (a.latency < b.latency || (a.latency == b.latency
        && a.hop <= b.hop)))
}

/// `r` with `cost` added to its cost.
pub open spec fn rank_plus(r: Rank, cost: int) -> Rank {
    Rank { cost: r.cost + cost, latency: r.latency, hop: r.hop }
}

/// The rank of the path that consists of the first hop `h` alone.
pub open spec fn hop_rank(h: Hop) -> Rank {
    Rank { cost: 1, latency: latency_rank(h.latency_us), hop: h.peer_id as int }
}

/// Whether the link `e` can be followed from the node `from`: `from` is not
/// the local node and reports `e`.
pub open spec fn can_step(m: Mesh, from: PeerId, e: Neighbor) -> bool {
    from != m.local && m.links.contains_key(from) && m.links[from].contains(e)
}

/// Whether step `i` of `p` follows a link from the node reached before it.
pub open spec fn step_ok(m: Mesh, p: Path, i: int) -> bool {
    can_step(m, p.node(i), p.steps[i])
}

/// Whether `p` is a path of the mesh: it starts with a direct neighbour and
/// each step follows a link from the node reached so far.
pub open spec fn is_path(m: Mesh, p: Path) -> bool {
    &&& m.hops.contains(p.first)
    &&& forall|i: int| 0 <= i < p.steps.len() ==> #[trigger] step_ok(m, p, i)
}

/// Whether `p` is a path of the mesh that leads to `dest`.
pub open spec fn reaches(m: Mesh, p: Path, dest: PeerId) -> bool {
    is_path(m, p) && p.end() == dest
}

/// Whether some path of the mesh leads to `dest`.
pub open spec fn reachable(m: Mesh, dest: PeerId) -> bool {
    exists|p: Path| reaches(m, p, dest)
}

/// Whether `r` is the rank of the best path to `dest`: some path to `dest`
/// has it, and no path to `dest` is better.
pub open spec fn is_best_rank(m: Mesh, dest: PeerId, r: Rank) -> bool {
    &&& exists|p: Path| reaches(m, p, dest) && p.rank() == r
    &&& forall|q: Path| reaches(m, q, dest) ==> rank_le(r, #[trigger] q.rank())
}

/// A path with one more step costs that step more, ends where the step
/// leads, and is a path where the step can be followed from its end.
pub proof fn lemma_extend(m: Mesh, p: Path, e: Neighbor)
    requires
        is_path(m, p),
        can_step(m, p.end(), e),
    ensures
        is_path(m, p.extend(e)),
        p.extend(e).end() == e.peer_id,
        p.extend(e).rank() == rank_plus(p.rank(), e.cost as int),
{
    let q = p.extend(e);
    assert(q.steps.drop_last() =~= p.steps);
    assert(q.steps.last() == e);
    assert forall|i: int| 0 <= i < q.steps.len() implies #[trigger] step_ok(m, q, i) by {
        if i < p.steps.len() {
            assert(step_ok(m, p, i));
            assert(q.steps[i] == p.steps[i]);
            assert(q.node(i) == p.node(i));
        } else {
            assert(q.node(i) == p.end());
        }
    }
}

/// A path with at least one step is its prefix with its last step added.
pub proof fn lemma_prefix(m: Mesh, q: Path)
    requires
        is_path(m, q),
        q.steps.len() > 0,
    ensures
        is_path(m, q.prefix()),
        can_step(m, q.prefix().end(), q.steps.last()),
        q.rank() == rank_plus(q.prefix().rank(), q.steps.last().cost as int),
        q.end() == q.steps.last().peer_id,
{
    let p = q.prefix();
    assert forall|i: int| 0 <= i < p.steps.len() implies #[trigger] step_ok(m, p, i) by {
        assert(step_ok(m, q, i));
        assert(p.steps[i] == q.steps[i]);
        assert(p.node(i) == q.node(i));
    }
    let k = q.steps.len() - 1;
    assert(step_ok(m, q, k));
    assert(p.end() == q.node(k));
}

/// Every link that the mesh reports has a positive cost.
pub open spec fn links_positive(m: Mesh) -> bool {
    forall|o: PeerId| #[trigger] m.links.contains_key(o) ==> well_formed(m.links[o])
}

/// Where every link has a positive cost, a path costs at least 1 for its
/// first hop and 1 for each of its steps.
pub proof fn lemma_cost_at_least_length(m: Mesh, p: Path)
    requires
        is_path(m, p),
        links_positive(m),
    ensures
        p.cost() >= 1 + p.steps.len(),
    decreases p.steps.len(),
{
    if p.steps.len() > 0 {
        lemma_prefix(m, p);
        lemma_cost_at_least_length(m, p.prefix());
        let from = p.prefix().end();
        let e = p.steps.last();
        assert(m.links.contains_key(from));
        let k = choose|k: int| 0 <= k < m.links[from].len() && m.links[from][k] == e;
        assert(m.links[from][k].cost >= 1);
    }
}

} // verus!
