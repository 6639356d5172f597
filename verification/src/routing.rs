//! The path computation: from the direct neighbours and the link states
//! held, the best path to every node that can be reached.

use crate::link_state::{LinkEntry, LinkStateDb, usable_links};
use crate::model::{latency_rank, Neighbor, PeerId};
use crate::paths::{
    can_step, Hop, is_best_rank, is_path, Mesh, Path, Rank, rank_le, rank_plus, reachable, reaches,
};
use crate::search::{
    bounded, closed_under, covers, exhausted, hop_covered, increasing, Label, lemma_exhausted,
    lemma_follow, lemma_increasing_len, lemma_links_followed, lemma_pick_is_optimal, lemma_relax,
    lemma_seeded_kept, lemma_settle, lemma_slot, lemma_slot_of, lemma_undone_len,
    lemma_undone_update, optimal_at, rank_of, relaxed_at, Search, search_ok, settled, shaped, slot,
    undone, with_label, with_settled, witness_ok, witnessed,
};
use vstd::prelude::*;

verus! {

/// The graph that the path computation works in.
pub open spec fn mesh_of(local: PeerId, hops: Seq<Hop>, held: Map<PeerId, LinkEntry>) -> Mesh {
    Mesh { local: local, hops: hops, links: usable_links(held) }
}

/// Puts `id` into `ids` at its place in the order, unless it is there.
pub fn insert_sorted(ids: &mut Vec<PeerId>, id: PeerId)
    requires
        increasing(old(ids)@),
    ensures
        increasing(final(ids)@),
        forall|x: PeerId| final(ids)@.contains(x) <==> old(ids)@.contains(x) || x == id,
{
    let mut i: usize = 0;
    while i < ids.len() && ids[i] < id
        invariant
            i <= ids.len(),
            ids@ == old(ids)@,
            forall|j: int| 0 <= j < i ==> ids@[j] < id,
        decreases ids.len() - i,
    {
        i += 1;
    }
    if i < ids.len() && ids[i] == id {
        return ;
    }
    ids.insert(i, id);
    proof {
        let before = old(ids)@;
        let after = ids@;
        assert forall|a: int, b: int| 0 <= a < b < after.len() implies after[a] < after[b] by {
            if b < i {
                assert(after[a] == before[a] && after[b] == before[b]);
            } else if b == i {
                assert(after[a] == before[a]);
            } else if a < i {
                assert(after[a] == before[a] && after[b] == before[b - 1]);
                if i < before.len() {
                    assert(before[i as int] >= id);
                }
            } else if a == i {
                assert(after[b] == before[b - 1]);
                assert(before[i as int] > id);
                if b - 1 > i {
                    assert(before[i as int] < before[b - 1]);
                }
            } else {
                assert(after[a] == before[a - 1] && after[b] == before[b - 1]);
            }
        }
        assert forall|x: PeerId| after.contains(x) <==> before.contains(x) || x == id by {
            if after.contains(x) {
                let a = choose|a: int| 0 <= a < after.len() && after[a] == x;
                if a < i {
                    assert(before[a] == x);
                } else if a > i {
                    assert(before[a - 1] == x);
                }
            }
            if before.contains(x) {
                let a = choose|a: int| 0 <= a < before.len() && before[a] == x;
                if a < i {
                    assert(after[a] == x);
                } else {
                    assert(after[a + 1] == x);
                }
            }
            if x == id {
                assert(after[i as int] == x);
            }
        }
    }
}

/// The place of `id` among `ids`, where it is there.
pub fn find_slot(ids: &Vec<PeerId>, id: PeerId) -> (r: Option<usize>)
    requires
        increasing(ids@),
    ensures
        r is Some <==> ids@.contains(id),
        r matches Some(i) ==> i < ids@.len() && ids@[i as int] == id && slot(ids@, id) == i,
{
    let mut i: usize = 0;
    while i < ids.len()
        invariant
            i <= ids.len(),
            increasing(ids@),
            forall|j: int| 0 <= j < i ==> ids@[j] != id,
        decreases ids.len() - i,
    {
        if ids[i] == id {
            proof {
                lemma_slot(ids@, i as int);
            }
            return Some(i);
        }
        i += 1;
    }
    None
}

/// Whether `a` is strictly better than `b`: lower cost, then lower
/// first-hop latency with an unmeasured one last, then the smaller first
/// hop.
pub fn better(a: Label, b: Label) -> (r: bool)
    ensures
        r == !rank_le(rank_of(b), rank_of(a)),
{
    if a.cost != b.cost {
        return a.cost < b.cost;
    }
    match (a.latency_us, b.latency_us) {
        (Some(x), Some(y)) => {
            if x != y {
                x < y
            } else {
                a.hop < b.hop
            }
        },
        (Some(_), None) => true,
        (None, Some(_)) => false,
        (None, None) => a.hop < b.hop,
    }
}

/// What `pick` finds: nothing where every node that has a label is settled,
/// else a node that is not settled and whose label is at least as good as
/// that of every other such node.
pub open spec fn picked(
    best: Seq<Option<Label>>,
    done: Seq<bool>,
    upto: int,
    next: Option<usize>,
) -> bool {
    match next {
        None => forall|j: int| 0 <= j < upto && (#[trigger] best[j]) is Some ==> done[j],
        Some(u) => {
            &&& u < upto
            &&& !done[u as int]
            &&& best[u as int] is Some
            &&& forall|j: int|
                0 <= j < upto && !done[j] && (#[trigger] best[j]) is Some ==> rank_le(
                    rank_of(best[u as int]->0),
                    rank_of(best[j]->0),
                )
        },
    }
}

/// The node to settle next.
fn pick(best: &Vec<Option<Label>>, done: &Vec<bool>) -> (next: Option<usize>)
    requires
        best@.len() == done@.len(),
    ensures
        picked(best@, done@, best@.len() as int, next),
{
    let mut next: Option<usize> = None;
    let mut i: usize = 0;
    while i < best.len()
        invariant
            i <= best.len(),
            best@.len() == done@.len(),
            picked(best@, done@, i as int, next),
        decreases best.len() - i,
    {
        if !done[i] {
            if let Some(l) = best[i] {
                match next {
                    None => {
                        next = Some(i);
                    },
                    Some(u) => {
                        let lu = best[u].unwrap();
                        if better(l, lu) {
                            next = Some(i);
                        }
                    },
                }
            }
        }
        i += 1;
    }
    next
}

/// The nodes that a path can visit, in increasing order: the direct
/// neighbours and every node that a fresh link state names.
fn collect_nodes(local: PeerId, hops: &Vec<Hop>, db: &LinkStateDb) -> (ids: Vec<PeerId>)
    requires
        db.wf(),
    ensures
        increasing(ids@),
        closed_under(mesh_of(local, hops@, db@), ids@),
{
    let ghost m = mesh_of(local, hops@, db@);
    let mut ids: Vec<PeerId> = Vec::new();
    let mut a: usize = 0;
    while a < hops.len()
        invariant
            a <= hops.len(),
            increasing(ids@),
            forall|b: int| 0 <= b < a ==> ids@.contains((#[trigger] hops@[b]).peer_id),
        decreases hops.len() - a,
    {
        insert_sorted(&mut ids, hops[a].peer_id);
        a += 1;
    }
    let origins = db.origins();
    let mut o: usize = 0;
    while o < origins.len()
        invariant
            o <= origins.len(),
            db.wf(),
            increasing(ids@),
            forall|b: int| 0 <= b < hops@.len() ==> ids@.contains((#[trigger] hops@[b]).peer_id),
            forall|p: int, e: Neighbor|
                0 <= p < o && usable_links(db@).contains_key(#[trigger] origins@[p])
                    && #[trigger] usable_links(db@)[origins@[p]].contains(e) ==> ids@.contains(
                    e.peer_id,
                ),
        decreases origins.len() - o,
    {
        if let Some(links) = db.links_of(origins[o]) {
            let mut k: usize = 0;
            while k < links.len()
                invariant
                    k <= links.len(),
                    o < origins.len(),
                    links@ == usable_links(db@)[origins@[o as int]],
                    increasing(ids@),
                    forall|b: int|
                        0 <= b < hops@.len() ==> ids@.contains((#[trigger] hops@[b]).peer_id),
                    forall|p: int, e: Neighbor|
                        0 <= p < o && usable_links(db@).contains_key(#[trigger] origins@[p])
                            && #[trigger] usable_links(db@)[origins@[p]].contains(e)
                            ==> ids@.contains(e.peer_id),
                    forall|j: int| 0 <= j < k ==> ids@.contains((#[trigger] links@[j]).peer_id),
                decreases links.len() - k,
            {
                insert_sorted(&mut ids, links[k].peer_id);
                k += 1;
            }
            proof {
                assert forall|e: Neighbor| #[trigger]
                    usable_links(db@)[origins@[o as int]].contains(e) implies ids@.contains(
                    e.peer_id,
                ) by {
                    let j = choose|j: int| 0 <= j < links@.len() && links@[j] == e;
                    assert(ids@.contains(links@[j].peer_id));
                }
            }
        }
        o += 1;
    }
    proof {
        assert forall|from: PeerId, e: Neighbor| #[trigger] can_step(m, from, e) implies ids@.contains(
            e.peer_id,
        ) by {
            assert(db@.contains_key(from));
            assert(origins@.contains(from));
            let p = choose|p: int| 0 <= p < origins@.len() && origins@[p] == from;
            assert(usable_links(db@).contains_key(origins@[p]));
            assert(usable_links(db@)[origins@[p]].contains(e));
        }
    }
    ids
}

/// A fresh state of `n` nodes without labels.
fn blank_state(n: usize) -> (r: (Vec<Option<Label>>, Vec<bool>))
    ensures
        r.0@.len() == n,
        r.1@.len() == n,
        forall|i: int| 0 <= i < n ==> (#[trigger] r.0@[i]) is None,
        forall|i: int| 0 <= i < n ==> !(#[trigger] r.1@[i]),
{
    let mut best: Vec<Option<Label>> = Vec::new();
    let mut done: Vec<bool> = Vec::new();
    let mut i: usize = 0;
    while i < n
        invariant
            i <= n,
            best@.len() == i,
            done@.len() == i,
            forall|j: int| 0 <= j < i ==> (#[trigger] best@[j]) is None,
            forall|j: int| 0 <= j < i ==> !(#[trigger] done@[j]),
        decreases n - i,
    {
        best.push(None);
        done.push(false);
        i += 1;
    }
    (best, done)
}

/// Gives every direct neighbour the label of the first hop to it, or leaves
/// it a better one.
fn seed(
    ids: &Vec<PeerId>,
    hops: &Vec<Hop>,
    best: &mut Vec<Option<Label>>,
    done: &Vec<bool>,
    Ghost(m): Ghost<Mesh>,
) -> (wit: Ghost<Seq<Path>>)
    requires
        m.hops == hops@,
        increasing(ids@),
        closed_under(m, ids@),
        old(best)@.len() == ids@.len(),
        done@.len() == ids@.len(),
        forall|i: int| 0 <= i < ids@.len() ==> (#[trigger] old(best)@[i]) is None,
        forall|i: int| 0 <= i < ids@.len() ==> !(#[trigger] done@[i]),
    ensures
        search_ok(m, state_of(ids@, final(best)@, done@, wit@)),
        bounded(state_of(ids@, final(best)@, done@, wit@), 1),
{
    let ghost mut wit: Seq<Path> = Seq::new(
        ids@.len(),
        |i: int| Path { first: Hop { peer_id: 0, latency_us: None }, steps: Seq::empty() },
    );
    let mut a: usize = 0;
    while a < hops.len()
        invariant
            a <= hops.len(),
            m.hops == hops@,
            increasing(ids@),
            closed_under(m, ids@),
            forall|i: int| 0 <= i < ids@.len() ==> !(#[trigger] done@[i]),
            shaped(state_of(ids@, best@, done@, wit)),
            witnessed(m, state_of(ids@, best@, done@, wit)),
            settled(m, state_of(ids@, best@, done@, wit)),
            bounded(state_of(ids@, best@, done@, wit), 1),
            forall|b: int|
                0 <= b < a ==> #[trigger] hop_covered(
                    m,
                    state_of(ids@, best@, done@, wit),
                    b,
                ),
        decreases hops.len() - a,
    {
        let h = hops[a];
        let ghost s = state_of(ids@, best@, done@, wit);
        proof {
            assert(ids@.contains(m.hops[a as int].peer_id));
        }
        match find_slot(ids, h.peer_id) {
            Some(v) => {
                let cand = Label { cost: 1, latency_us: h.latency_us, hop: h.peer_id };
                let replace = match best[v] {
                    None => true,
                    Some(l) => better(cand, l),
                };
                if replace {
                    let ghost path = Path { first: h, steps: Seq::empty() };
                    proof {
                        assert(m.hops[a as int] == h);
                        assert(is_path(m, path));
                        assert(path.rank() == rank_of(cand));
                        lemma_relax(m, s, v as int, cand, path, 1);
                        wit = wit.update(v as int, path);
                    }
                    best.set(v, Some(cand));
                    proof {
                        let s2 = state_of(ids@, best@, done@, wit);
                        assert(s2 == with_label(s, v as int, cand, path));
                        assert forall|b: int| 0 <= b < a + 1 implies #[trigger] hop_covered(
                            m,
                            s2,
                            b,
                        ) by {
                            if b < a {
                                assert(hop_covered(m, s, b));
                            } else {
                                assert(s2.best[v as int] == Some(cand));
                            }
                        }
                    }
                } else {
                    proof {
                        assert(hop_covered(m, s, a as int));
                    }
                }
            },
            None => {},
        }
        a += 1;
    }
    Ghost(wit)
}

/// The state that the search keeps in its vectors, as one value.
pub open spec fn state_of(
    ids: Seq<PeerId>,
    best: Seq<Option<Label>>,
    done: Seq<bool>,
    wit: Seq<Path>,
) -> Search {
    Search { ids: ids, best: best, done: done, wit: wit }
}

/// Follows every link of the node at place `u`: where a link leads to a
/// node without a label, or to one whose label is worse than that of `u`
/// with the cost of the link added, the node gets that label.
fn follow_links(
    ids: &Vec<PeerId>,
    best: &mut Vec<Option<Label>>,
    done: &Vec<bool>,
    links: &Vec<Neighbor>,
    u: usize,
    Ghost(m): Ghost<Mesh>,
    Ghost(wit0): Ghost<Seq<Path>>,
    Ghost(limit): Ghost<int>,
) -> (wit: Ghost<Seq<Path>>)
    requires
        search_ok(m, state_of(ids@, old(best)@, done@, wit0)),
        u < ids@.len(),
        !done@[u as int],
        old(best)@[u as int] is Some,
        (old(best)@[u as int]->0).cost <= limit,
        bounded(state_of(ids@, old(best)@, done@, wit0), limit + 0xFFFF_FFFF),
        limit + 0xFFFF_FFFF <= u64::MAX,
        ids@[u as int] != m.local,
        m.links.contains_key(ids@[u as int]),
        links@ == m.links[ids@[u as int]],
    ensures
        search_ok(m, state_of(ids@, final(best)@, done@, wit@)),
        bounded(state_of(ids@, final(best)@, done@, wit@), limit + 0xFFFF_FFFF),
        final(best)@[u as int] == old(best)@[u as int],
        relaxed_at(m, state_of(ids@, final(best)@, done@, wit@), u as int),
{
    let ghost mut wit: Seq<Path> = wit0;
    let lu = best[u].unwrap();
    let mut j: usize = 0;
    while j < links.len()
        invariant
            j <= links.len(),
            u < ids@.len(),
            !done@[u as int],
            best@[u as int] == Some(lu),
            lu.cost <= limit,
            limit + 0xFFFF_FFFF <= u64::MAX,
            ids@[u as int] != m.local,
            m.links.contains_key(ids@[u as int]),
            links@ == m.links[ids@[u as int]],
            search_ok(m, state_of(ids@, best@, done@, wit)),
            bounded(state_of(ids@, best@, done@, wit), limit + 0xFFFF_FFFF),
            forall|k: int|
                0 <= k < j ==> covers(
                    state_of(ids@, best@, done@, wit),
                    slot(ids@, (#[trigger] links@[k]).peer_id),
                    rank_plus(rank_of(lu), links@[k].cost as int),
                ),
        decreases links.len() - j,
    {
        let e = links[j];
        let ghost s = state_of(ids@, best@, done@, wit);
        proof {
            assert(links@[j as int] == e);
            assert(m.links[ids@[u as int]].contains(e));
            assert(can_step(m, ids@[u as int], e));
            assert(ids@.contains(e.peer_id));
        }
        match find_slot(ids, e.peer_id) {
            Some(v) => {
                let cand = Label {
                    cost: lu.cost + e.cost as u64,
                    latency_us: lu.latency_us,
                    hop: lu.hop,
                };
                let replace = match best[v] {
                    None => true,
                    Some(l) => better(cand, l),
                };
                if replace {
                    proof {
                        lemma_follow(m, s, u as int, e, v as int, cand, limit + 0xFFFF_FFFF);
                        wit = wit.update(v as int, s.wit[u as int].extend(e));
                    }
                    best.set(v, Some(cand));
                    proof {
                        let s2 = state_of(ids@, best@, done@, wit);
                        assert(s2 == with_label(s, v as int, cand, s.wit[u as int].extend(e)));
                        assert forall|k: int| 0 <= k < j + 1 implies covers(
                            s2,
                            slot(ids@, (#[trigger] links@[k]).peer_id),
                            rank_plus(rank_of(lu), links@[k].cost as int),
                        ) by {
                            if k < j {
                                assert(covers(
                                    s,
                                    slot(ids@, links@[k].peer_id),
                                    rank_plus(rank_of(lu), links@[k].cost as int),
                                ));
                            }
                        }
                    }
                } else {
                    proof {
                        assert(covers(s, v as int, rank_of(cand)));
                    }
                }
            },
            None => {},
        }
        j += 1;
    }
    proof {
        lemma_links_followed(m, state_of(ids@, best@, done@, wit), u as int, links@);
    }
    Ghost(wit)
}

/// A node that can be reached, with the best path to it: what it costs and
/// which direct neighbour it starts with.
#[derive(Clone, Copy, Debug, PartialEq, Eq, Structural)]
pub struct Reach {
    pub dest: PeerId,
    pub cost: u64,
    pub next_hop: PeerId,
    /// The latency measured on the link to `next_hop`.
    pub hop_latency_us: Option<u64>,
}

/// By what the path of a `Reach` is compared.
pub open spec fn reach_rank(r: Reach) -> Rank {
    Rank { cost: r.cost as int, latency: latency_rank(r.hop_latency_us), hop: r.next_hop as int }
}

/// Whether `table` has an entry for `dest`.
pub open spec fn has_dest(table: Seq<Reach>, dest: PeerId) -> bool {
    exists|i: int| 0 <= i < table.len() && (#[trigger] table[i]).dest == dest
}

/// Whether `table` is the result of the path computation in `m`: it lists,
/// in increasing order of their identifiers, exactly the nodes other than
/// the local one that some path leads to, each with the rank of the best
/// path to it.
pub open spec fn is_reach_table(m: Mesh, table: Seq<Reach>) -> bool {
    &&& forall|i: int, j: int| 0 <= i < j < table.len() ==> table[i].dest < table[j].dest
    &&& forall|d: PeerId| #[trigger] has_dest(table, d) <==> d != m.local && reachable(m, d)
    &&& forall|i: int|
        0 <= i < table.len() ==> is_best_rank(m, (#[trigger] table[i]).dest, reach_rank(table[i]))
}

/// Whether `d` is one of the first `i` of `ids`.
pub open spec fn among_first(ids: Seq<PeerId>, i: int, d: PeerId) -> bool {
    exists|j: int| 0 <= j < i && j < ids.len() && ids[j] == d
}

/// The entries of the finished search, in the order of the nodes, without
/// the local node.
fn collect_reaches(
    local: PeerId,
    ids: &Vec<PeerId>,
    best: &Vec<Option<Label>>,
    done: &Vec<bool>,
    Ghost(m): Ghost<Mesh>,
    Ghost(wit): Ghost<Seq<Path>>,
) -> (table: Vec<Reach>)
    requires
        m.local == local,
        search_ok(m, state_of(ids@, best@, done@, wit)),
        exhausted(state_of(ids@, best@, done@, wit)),
    ensures
        is_reach_table(m, table@),
{
    let ghost s = state_of(ids@, best@, done@, wit);
    let mut table: Vec<Reach> = Vec::new();
    let mut i: usize = 0;
    while i < ids.len()
        invariant
            i <= ids.len(),
            shaped(s),
            s == state_of(ids@, best@, done@, wit),
            forall|x: int|
                0 <= x < table@.len() ==> among_first(ids@, i as int, (#[trigger] table@[x]).dest),
            forall|x: int, j: int|
                0 <= x < table@.len() && 0 <= j < ids@.len() && #[trigger] ids@[j]
                    == (#[trigger] table@[x]).dest ==> ids@[j] != local && best@[j] is Some
                    && rank_of(best@[j]->0) == reach_rank(table@[x]),
            forall|j: int|
                0 <= j < i && (#[trigger] best@[j]) is Some && ids@[j] != local ==> has_dest(
                    table@,
                    ids@[j],
                ),
            forall|x: int, y: int| 0 <= x < y < table@.len() ==> table@[x].dest < table@[y].dest,
        decreases ids.len() - i,
    {
        if let Some(l) = best[i] {
            if ids[i] != local {
                let ghost before = table@;
                table.push(
                    Reach {
                        dest: ids[i],
                        cost: l.cost,
                        next_hop: l.hop,
                        hop_latency_us: l.latency_us,
                    },
                );
                proof {
                    let last = before.len() as int;
                    assert(table@[last].dest == ids@[i as int]);
                    assert forall|x: int| 0 <= x < table@.len() implies among_first(
                        ids@,
                        i + 1,
                        (#[trigger] table@[x]).dest,
                    ) by {
                        if x < last {
                            assert(table@[x] == before[x]);
                            assert(among_first(ids@, i as int, before[x].dest));
                            let j = choose|j: int|
                                0 <= j < i && j < ids@.len() && ids@[j] == before[x].dest;
                            assert(0 <= j < i + 1 && ids@[j] == table@[x].dest);
                        } else {
                            assert(ids@[i as int] == table@[x].dest);
                        }
                    }
                    assert forall|x: int, j: int|
                        0 <= x < table@.len() && 0 <= j < ids@.len() && #[trigger] ids@[j]
                            == (#[trigger] table@[x]).dest implies ids@[j] != local && best@[j] is Some
                        && rank_of(best@[j]->0) == reach_rank(table@[x]) by {
                        if x < last {
                            assert(table@[x] == before[x]);
                        } else {
                            if j < i {
                                assert(ids@[j] < ids@[i as int]);
                            } else if j > i {
                                assert(ids@[i as int] < ids@[j]);
                            }
                        }
                    }
                    assert forall|j: int|
                        0 <= j < i + 1 && (#[trigger] best@[j]) is Some && ids@[j]
                            != local implies has_dest(table@, ids@[j]) by {
                        if j < i {
                            assert(has_dest(before, ids@[j]));
                            let x = choose|x: int|
                                0 <= x < before.len() && (#[trigger] before[x]).dest == ids@[j];
                            assert(table@[x] == before[x]);
                        } else {
                            assert(table@[last].dest == ids@[j]);
                        }
                    }
                    assert forall|x: int, y: int| 0 <= x < y < table@.len() implies table@[x].dest
                        < table@[y].dest by {
                        assert(table@[x] == before[x]);
                        if y < last {
                            assert(table@[y] == before[y]);
                        } else {
                            assert(among_first(ids@, i as int, before[x].dest));
                            let j = choose|j: int|
                                0 <= j < i && j < ids@.len() && ids@[j] == before[x].dest;
                            assert(ids@[j] < ids@[i as int]);
                        }
                    }
                }
            }
        }
        i += 1;
    }
    proof {
        assert forall|d: PeerId| #[trigger] has_dest(table@, d) <==> d != m.local && reachable(
            m,
            d,
        ) by {
            if has_dest(table@, d) {
                let x = choose|x: int| 0 <= x < table@.len() && (#[trigger] table@[x]).dest == d;
                assert(among_first(ids@, ids@.len() as int, table@[x].dest));
                let j = choose|j: int| 0 <= j < ids@.len() && ids@[j] == table@[x].dest;
                assert(ids@[j] == table@[x].dest);
                assert(witness_ok(m, s, j));
                assert(reaches(m, s.wit[j], d));
            }
            if d != m.local && reachable(m, d) {
                let q = choose|q: Path| reaches(m, q, d);
                lemma_exhausted(m, s, q);
                lemma_slot_of(ids@, d);
                let j = slot(ids@, d);
                assert(best@[j] is Some);
                assert(has_dest(table@, ids@[j]));
            }
        }
        assert forall|x: int| 0 <= x < table@.len() implies is_best_rank(
            m,
            (#[trigger] table@[x]).dest,
            reach_rank(table@[x]),
        ) by {
            let d = table@[x].dest;
            assert(among_first(ids@, ids@.len() as int, table@[x].dest));
            let j = choose|j: int| 0 <= j < ids@.len() && ids@[j] == table@[x].dest;
            assert(ids@[j] == d);
            assert(witness_ok(m, s, j));
            assert(reaches(m, s.wit[j], d) && s.wit[j].rank() == reach_rank(table@[x]));
            lemma_slot(ids@, j);
            assert forall|q: Path| reaches(m, q, d) implies rank_le(
                reach_rank(table@[x]),
                #[trigger] q.rank(),
            ) by {
                lemma_exhausted(m, s, q);
            }
        }
    }
    table
}

/// The best path to every node that can be reached from the local node
/// `local` over one of the direct neighbours `hops` and then over links that
/// the fresh link states of `db` report. A path costs 1 for its first hop
/// and the reported cost for every further link. Of two paths to the same
/// node the cheaper is the better one; at the same cost, the one whose first
/// hop has the lower measured latency, an unmeasured one counting as the
/// highest; at the same latency, the one whose first hop has the smaller
/// identifier. Links that the local node itself reports are not followed. A
/// node that no path leads to has no entry.
pub fn shortest_paths(local: PeerId, hops: &Vec<Hop>, db: &LinkStateDb) -> (table: Vec<Reach>)
    requires
        db.wf(),
    ensures
        is_reach_table(mesh_of(local, hops@, db@), table@),
{
    let ghost m = mesh_of(local, hops@, db@);
    let ids = collect_nodes(local, hops, db);
    let n = ids.len();
    proof {
        lemma_increasing_len(ids@);
    }
    let (mut best, mut done) = blank_state(n);
    let Ghost(wit0) = seed(&ids, hops, &mut best, &done, Ghost(m));
    let ghost mut wit: Seq<Path> = wit0;
    proof {
        lemma_undone_len(done@);
    }
    let mut next = pick(&best, &done);
    while next.is_some()
        invariant
            n == ids@.len(),
            n <= 0x1_0000_0000,
            db.wf(),
            m == mesh_of(local, hops@, db@),
            search_ok(m, state_of(ids@, best@, done@, wit)),
            undone(done@) <= n,
            bounded(
                state_of(ids@, best@, done@, wit),
                1 + (n - undone(done@)) * 0xFFFF_FFFF,
            ),
            picked(best@, done@, n as int, next),
        decreases undone(done@),
    {
        let u = next.unwrap();
        let ghost limit: int = 1 + (n - undone(done@)) * 0xFFFF_FFFF;
        let ghost picked_label = best@[u as int];
        proof {
            lemma_pick_is_optimal(m, state_of(ids@, best@, done@, wit), u as int);
            lemma_undone_update(done@, u as int);
        }
        let mut followed = false;
        if ids[u] != local {
            if let Some(links) = db.links_of(ids[u]) {
                let Ghost(w) = follow_links(
                    &ids,
                    &mut best,
                    &done,
                    links,
                    u,
                    Ghost(m),
                    Ghost(wit),
                    Ghost(limit),
                );
                proof {
                    wit = w;
                }
                followed = true;
            }
        }
        let ghost before = state_of(ids@, best@, done@, wit);
        proof {
            assert(before.best[u as int] == picked_label);
            assert(optimal_at(m, before, u as int));
            assert(relaxed_at(m, before, u as int));
            lemma_settle(m, before, u as int);
            lemma_seeded_kept(m, before, with_settled(before, u as int));
        }
        done.set(u, true);
        proof {
            assert(state_of(ids@, best@, done@, wit) == with_settled(before, u as int));
        }
        next = pick(&best, &done);
    }
    collect_reaches(local, &ids, &best, &done, Ghost(m), Ghost(wit))
}

} // verus!
