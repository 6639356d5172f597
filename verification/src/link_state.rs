//! The link states learned from the mesh: which are accepted, how the
//! relationship to their origin moves between its states, and which of them
//! the path computation may use.

use crate::model::{LinkState, Neighbor, PeerId};
use vstd::prelude::*;

verus! {

/// Where the relationship to another node stands.
#[derive(Clone, Copy, Debug, PartialEq, Eq, Structural)]
pub enum NeighborState {
    /// Nothing is known of the node.
    Unknown,
    /// The local link state was sent to it; none of its own has arrived.
    Advertising,
    /// Its link state is held and fresh.
    Synchronized,
    /// Its link state is held but missed its refresh.
    Stale,
}

/// What can happen to the relationship to another node.
#[derive(Clone, Copy, Debug, PartialEq, Eq, Structural)]
pub enum LinkEvent {
    /// The local link state was sent to the node.
    Advertised,
    /// A link state of the node was accepted.
    Refreshed,
    /// The node let its refresh deadline pass.
    DeadlineMissed,
    /// The grace period after a missed deadline ran out.
    GraceExpired,
}

/// The state that follows `state` on `event`. A link state that is accepted
/// synchronizes from every state; a missed deadline turns a synchronized
/// relationship stale and ends one that never got further than advertising;
/// the end of the grace period ends a stale one. Any other event leaves the
/// state as it is.
pub open spec fn next_state(state: NeighborState, event: LinkEvent) -> NeighborState {
    match (state, event) {
        (NeighborState::Unknown, LinkEvent::Advertised) => NeighborState::Advertising,
        (_, LinkEvent::Refreshed) => NeighborState::Synchronized,
        (NeighborState::Synchronized, LinkEvent::DeadlineMissed) => NeighborState::Stale,
        (NeighborState::Advertising, LinkEvent::DeadlineMissed) => NeighborState::Unknown,
        (NeighborState::Stale, LinkEvent::GraceExpired) => NeighborState::Unknown,
        (s, _) => s,
    }
}

/// The state that follows `state` on `event`.
pub fn transition(state: NeighborState, event: LinkEvent) -> (next: NeighborState)
    ensures
        next == next_state(state, event),
{
    match (state, event) {
        (NeighborState::Unknown, LinkEvent::Advertised) => NeighborState::Advertising,
        (_, LinkEvent::Refreshed) => NeighborState::Synchronized,
        (NeighborState::Synchronized, LinkEvent::DeadlineMissed) => NeighborState::Stale,
        (NeighborState::Advertising, LinkEvent::DeadlineMissed) => NeighborState::Unknown,
        (NeighborState::Stale, LinkEvent::GraceExpired) => NeighborState::Unknown,
        (s, _) => s,
    }
}

/// What became of a link state that was handed in.
#[derive(Clone, Copy, Debug, PartialEq, Eq, Structural)]
pub enum Verdict {
    /// It replaced what was held of its origin.
    Accepted,
    /// Its sequence number is not above the one held of its origin.
    NotNewer,
    /// It names a link of cost zero.
    Malformed,
}

/// What is held of one node.
pub struct LinkEntry {
    pub origin: PeerId,
    /// Never `Unknown`: of an unknown node nothing is held.
    pub status: NeighborState,
    /// The last link state accepted from the node; none while advertising.
    pub state: Option<LinkState>,
}

/// Every link of a link state has a positive cost.
pub open spec fn well_formed(neighbors: Seq<Neighbor>) -> bool {
    forall|i: int| 0 <= i < neighbors.len() ==> (#[trigger] neighbors[i]).cost >= 1
}

/// What holds of each entry: it is kept for a reason, it holds a link state
/// unless it is only advertising, and that link state is its origin's own and
/// well formed.
pub open spec fn entry_ok(e: LinkEntry) -> bool {
    &&& e.status != NeighborState::Unknown
    &&& e.status == NeighborState::Advertising <==> e.state is None
    &&& e.state matches Some(ls) ==> ls.origin == e.origin && well_formed(ls.neighbors@)
}

/// The entries by origin.
pub open spec fn by_origin(entries: Seq<LinkEntry>) -> Map<PeerId, LinkEntry> {
    Map::new(
        |o: PeerId| exists|i: int| 0 <= i < entries.len() && (#[trigger] entries[i]).origin == o,
        |o: PeerId|
            entries[choose|i: int| 0 <= i < entries.len() && (#[trigger] entries[i]).origin == o],
    )
}

/// No two entries share an origin.
pub open spec fn distinct_origins(entries: Seq<LinkEntry>) -> bool {
    forall|i: int, j: int|
        0 <= i < j < entries.len() ==> (#[trigger] entries[i]).origin != (
        #[trigger] entries[j]).origin
}

/// The state of the relationship to `origin`, given what is held.
pub open spec fn status_in(held: Map<PeerId, LinkEntry>, origin: PeerId) -> NeighborState {
    if held.contains_key(origin) {
        held[origin].status
    } else {
        NeighborState::Unknown
    }
}

/// What is held of a node after `event`, given what was held before. The
/// link state itself stays as it is.
pub open spec fn after_event(
    held: Map<PeerId, LinkEntry>,
    origin: PeerId,
    event: LinkEvent,
) -> Map<PeerId, LinkEntry> {
    let next = next_state(status_in(held, origin), event);
    if next == NeighborState::Unknown {
        held.remove(origin)
    } else if held.contains_key(origin) {
        held.insert(origin, LinkEntry { status: next, ..held[origin] })
    } else {
        held.insert(origin, LinkEntry { origin: origin, status: next, state: None })
    }
}

/// What becomes of a link state with the given origin, sequence number and
/// links, given what is held.
pub open spec fn verdict_for(
    held: Map<PeerId, LinkEntry>,
    origin: PeerId,
    seq: u64,
    neighbors: Seq<Neighbor>,
) -> Verdict {
    if !well_formed(neighbors) {
        Verdict::Malformed
    } else if held.contains_key(origin) && held[origin].state is Some
        && held[origin].state->0.seq >= seq {
        Verdict::NotNewer
    } else {
        Verdict::Accepted
    }
}

/// What is held after `ls` was handed in.
pub open spec fn delivered(held: Map<PeerId, LinkEntry>, ls: LinkState) -> Map<PeerId, LinkEntry> {
    if verdict_for(held, ls.origin, ls.seq, ls.neighbors@) == Verdict::Accepted {
        held.insert(
            ls.origin,
            LinkEntry { origin: ls.origin, status: NeighborState::Synchronized, state: Some(ls) },
        )
    } else {
        held
    }
}

/// The links that the path computation may use: those of the link states
/// that are held and fresh, by origin.
pub open spec fn usable_links(held: Map<PeerId, LinkEntry>) -> Map<PeerId, Seq<Neighbor>> {
    Map::new(
        |o: PeerId|
            held.contains_key(o) && held[o].status == NeighborState::Synchronized
                && held[o].state is Some,
        |o: PeerId| held[o].state->0.neighbors@,
    )
}

/// What is held of the other nodes of the mesh.
pub struct LinkStateDb {
    entries: Vec<LinkEntry>,
}

impl View for LinkStateDb {
    type V = Map<PeerId, LinkEntry>;

    closed spec fn view(&self) -> Map<PeerId, LinkEntry> {
        by_origin(self.entries@)
    }
}

impl LinkStateDb {
    /// What holds of every database: one entry per origin, each as
    /// `entry_ok` says.
    pub closed spec fn wf(&self) -> bool {
        &&& distinct_origins(self.entries@)
        &&& forall|i: int| 0 <= i < self.entries@.len() ==> entry_ok(#[trigger] self.entries@[i])
    }

    /// A database that holds nothing.
    pub fn new() -> (db: LinkStateDb)
        ensures
            db.wf(),
            db@ == Map::<PeerId, LinkEntry>::empty(),
    {
        let db = LinkStateDb { entries: Vec::new() };
        proof {
            assert(db@ =~= Map::<PeerId, LinkEntry>::empty());
        }
        db
    }

    /// Every entry of a database is under its own origin and as `entry_ok`
    /// says.
    pub proof fn lemma_entries(&self)
        requires
            self.wf(),
        ensures
            forall|o: PeerId| #[trigger]
                self@.contains_key(o) ==> self@[o].origin == o && entry_ok(self@[o]),
    {
        lemma_by_origin(self.entries@);
    }

    /// The place of the entry of `origin`, where one is held.
    fn find(&self, origin: PeerId) -> (r: Option<usize>)
        requires
            self.wf(),
        ensures
            r is None <==> !self@.contains_key(origin),
            r matches Some(i) ==> i < self.entries@.len() && self.entries@[i as int].origin
                == origin && self@[origin] == self.entries@[i as int],
    {
        proof {
            lemma_by_origin(self.entries@);
        }
        let mut i: usize = 0;
        while i < self.entries.len()
            invariant
                i <= self.entries.len(),
                self.wf(),
                forall|j: int| 0 <= j < i ==> (#[trigger] self.entries@[j]).origin != origin,
            decreases self.entries.len() - i,
        {
            if self.entries[i].origin == origin {
                proof {
                    lemma_by_origin(self.entries@);
                }
                return Some(i);
            }
            i += 1;
        }
        None
    }

    /// The state of the relationship to `origin`.
    pub fn status(&self, origin: PeerId) -> (s: NeighborState)
        requires
            self.wf(),
        ensures
            s == status_in(self@, origin),
    {
        match self.find(origin) {
            Some(i) => self.entries[i].status,
            None => NeighborState::Unknown,
        }
    }

    /// The links of the link state held of `origin`, where it is held and
    /// fresh.
    pub fn links_of(&self, origin: PeerId) -> (r: Option<&Vec<Neighbor>>)
        requires
            self.wf(),
        ensures
            r is Some <==> usable_links(self@).contains_key(origin),
            r matches Some(v) ==> v@ == usable_links(self@)[origin] && well_formed(v@),
    {
        match self.find(origin) {
            Some(i) => {
                let e = &self.entries[i];
                match (&e.state, e.status) {
                    (Some(ls), NeighborState::Synchronized) => Some(&ls.neighbors),
                    _ => None,
                }
            },
            None => None,
        }
    }

    /// The link state held of `origin`, fresh or stale.
    pub fn get(&self, origin: PeerId) -> (r: Option<&LinkState>)
        requires
            self.wf(),
        ensures
            r is Some <==> self@.contains_key(origin) && self@[origin].state is Some,
            r matches Some(ls) ==> self@[origin].state == Some(*ls),
    {
        match self.find(origin) {
            Some(i) => {
                match &self.entries[i].state {
                    Some(ls) => Some(ls),
                    None => None,
                }
            },
            None => None,
        }
    }

    /// Takes out the entry at place `i`.
    fn take_at(&mut self, i: usize) -> (e: LinkEntry)
        requires
            old(self).wf(),
            i < old(self).entries@.len(),
        ensures
            final(self).wf(),
            e == old(self).entries@[i as int],
            final(self)@ == old(self)@.remove(e.origin),
    {
        proof {
            lemma_remove_at(self.entries@, i as int);
        }
        self.entries.remove(i)
    }

    /// Files `e` under its origin, in place of what was held of it.
    fn put(&mut self, e: LinkEntry)
        requires
            old(self).wf(),
            entry_ok(e),
        ensures
            final(self).wf(),
            final(self)@ == old(self)@.insert(e.origin, e),
    {
        if let Some(i) = self.find(e.origin) {
            self.take_at(i);
        }
        proof {
            lemma_push(self.entries@, e);
            assert(old(self)@.remove(e.origin).insert(e.origin, e) =~= old(self)@.insert(
                e.origin,
                e,
            ));
            if !old(self)@.contains_key(e.origin) {
                assert(old(self)@.remove(e.origin) =~= old(self)@);
            }
        }
        self.entries.push(e);
    }

    /// Handles a link state that arrived. It is accepted where all its links
    /// have a positive cost and its sequence number is above the one held of
    /// its origin, or nothing is held of its origin; it then takes the place
    /// of what was held and the relationship is synchronized. Otherwise it
    /// is dropped and nothing changes.
    pub fn accept(&mut self, ls: LinkState) -> (verdict: Verdict)
        requires
            old(self).wf(),
        ensures
            final(self).wf(),
            verdict == verdict_for(old(self)@, ls.origin, ls.seq, ls.neighbors@),
            final(self)@ == delivered(old(self)@, ls),
    {
        if !all_positive(&ls.neighbors) {
            return Verdict::Malformed;
        }
        if let Some(prev) = self.get(ls.origin) {
            if prev.seq >= ls.seq {
                return Verdict::NotNewer;
            }
        }
        let origin = ls.origin;
        self.put(LinkEntry { origin, status: NeighborState::Synchronized, state: Some(ls) });
        Verdict::Accepted
    }

    /// Moves the relationship to `origin` on `event`, which is no refresh: a
    /// refresh comes with a link state, through `accept`.
    fn step(&mut self, origin: PeerId, event: LinkEvent)
        requires
            old(self).wf(),
            event != LinkEvent::Refreshed,
        ensures
            final(self).wf(),
            final(self)@ == after_event(old(self)@, origin, event),
    {
        let found = self.find(origin);
        let cur = match found {
            Some(i) => self.entries[i].status,
            None => NeighborState::Unknown,
        };
        let next = transition(cur, event);
        proof {
            lemma_by_origin(self.entries@);
        }
        match found {
            Some(i) => {
                if next == cur {
                    proof {
                        assert(old(self)@.insert(origin, old(self)@[origin]) =~= old(self)@);
                    }
                } else {
                    let mut e = self.take_at(i);
                    if next != NeighborState::Unknown {
                        e.status = next;
                        self.put(e);
                        proof {
                            assert(old(self)@.remove(origin).insert(origin, e) =~= old(
                                self,
                            )@.insert(origin, e));
                        }
                    }
                }
            },
            None => {
                if next == NeighborState::Unknown {
                    proof {
                        assert(old(self)@.remove(origin) =~= old(self)@);
                    }
                } else {
                    self.put(LinkEntry { origin, status: next, state: None });
                }
            },
        }
    }

    /// Notes that the local link state was sent to `peer`: a node of which
    /// nothing was known is now advertised to.
    pub fn advertise(&mut self, peer: PeerId)
        requires
            old(self).wf(),
        ensures
            final(self).wf(),
            final(self)@ == after_event(old(self)@, peer, LinkEvent::Advertised),
    {
        self.step(peer, LinkEvent::Advertised)
    }

    /// Notes that `origin` let its refresh deadline pass: a fresh link state
    /// turns stale and is kept, a node that was only advertised to is
    /// forgotten.
    pub fn miss_deadline(&mut self, origin: PeerId)
        requires
            old(self).wf(),
        ensures
            final(self).wf(),
            final(self)@ == after_event(old(self)@, origin, LinkEvent::DeadlineMissed),
    {
        self.step(origin, LinkEvent::DeadlineMissed)
    }

    /// Notes that the grace period of `origin` ran out: a stale link state
    /// is purged.
    pub fn expire_grace(&mut self, origin: PeerId)
        requires
            old(self).wf(),
        ensures
            final(self).wf(),
            final(self)@ == after_event(old(self)@, origin, LinkEvent::GraceExpired),
    {
        self.step(origin, LinkEvent::GraceExpired)
    }

    /// The nodes of which something is held.
    pub fn origins(&self) -> (ids: Vec<PeerId>)
        requires
            self.wf(),
        ensures
            forall|o: PeerId| ids@.contains(o) <==> self@.contains_key(o),
            ids@.no_duplicates(),
    {
        proof {
            lemma_by_origin(self.entries@);
        }
        let mut ids: Vec<PeerId> = Vec::new();
        let mut i: usize = 0;
        while i < self.entries.len()
            invariant
                i <= self.entries.len(),
                ids@.len() == i,
                forall|j: int| 0 <= j < i ==> ids@[j] == (#[trigger] self.entries@[j]).origin,
            decreases self.entries.len() - i,
        {
            ids.push(self.entries[i].origin);
            i += 1;
        }
        proof {
            assert forall|o: PeerId| ids@.contains(o) <==> self@.contains_key(o) by {
                if ids@.contains(o) {
                    let j = choose|j: int| 0 <= j < ids@.len() && ids@[j] == o;
                    assert(self.entries@[j].origin == o);
                }
                if self@.contains_key(o) {
                    let j = choose|j: int|
                        0 <= j < self.entries@.len() && (#[trigger] self.entries@[j]).origin == o;
                    assert(ids@[j] == o);
                }
            }
            assert forall|a: int, b: int| 0 <= a < ids@.len() && 0 <= b < ids@.len() && a
                != b implies ids@[a] != ids@[b] by {
                assert(ids@[a] == self.entries@[a].origin);
                assert(ids@[b] == self.entries@[b].origin);
            }
        }
        ids
    }
}

/// With distinct origins, the map of the entries holds each entry under its
/// origin, and nothing else.
pub proof fn lemma_by_origin(entries: Seq<LinkEntry>)
    requires
        distinct_origins(entries),
    ensures
        forall|i: int|
            0 <= i < entries.len() ==> by_origin(entries).contains_key(
                (#[trigger] entries[i]).origin,
            ) && by_origin(entries)[entries[i].origin] == entries[i],
        forall|o: PeerId| #[trigger]
            by_origin(entries).contains_key(o) ==> exists|i: int|
                0 <= i < entries.len() && (#[trigger] entries[i]).origin == o && by_origin(
                    entries,
                )[o] == entries[i],
{
    assert forall|i: int| 0 <= i < entries.len() implies by_origin(entries).contains_key(
        (#[trigger] entries[i]).origin,
    ) && by_origin(entries)[entries[i].origin] == entries[i] by {
        let o = entries[i].origin;
        let j = choose|j: int| 0 <= j < entries.len() && (#[trigger] entries[j]).origin == o;
        if i < j {
            assert(entries[i].origin != entries[j].origin);
        } else if j < i {
            assert(entries[j].origin != entries[i].origin);
        }
    }
    assert forall|o: PeerId| #[trigger] by_origin(entries).contains_key(o) implies exists|i: int|
        0 <= i < entries.len() && (#[trigger] entries[i]).origin == o && by_origin(entries)[o]
            == entries[i] by {
        let j = choose|j: int| 0 <= j < entries.len() && (#[trigger] entries[j]).origin == o;
        assert(entries[j].origin == o && by_origin(entries)[o] == entries[j]);
    }
}

/// Whether every link has a positive cost.
pub fn all_positive(neighbors: &Vec<Neighbor>) -> (ok: bool)
    ensures
        ok == well_formed(neighbors@),
{
    let mut i: usize = 0;
    while i < neighbors.len()
        invariant
            i <= neighbors.len(),
            forall|j: int| 0 <= j < i ==> (#[trigger] neighbors@[j]).cost >= 1,
        decreases neighbors.len() - i,
    {
        if neighbors[i].cost == 0 {
            return false;
        }
        i += 1;
    }
    true
}

/// Taking one entry out takes its origin out of the map, and nothing else.
pub proof fn lemma_remove_at(entries: Seq<LinkEntry>, i: int)
    requires
        distinct_origins(entries),
        0 <= i < entries.len(),
    ensures
        distinct_origins(entries.remove(i)),
        by_origin(entries.remove(i)) == by_origin(entries).remove(entries[i].origin),
{
    let rest = entries.remove(i);
    assert forall|a: int, b: int| 0 <= a < b < rest.len() implies (#[trigger] rest[a]).origin != (
    #[trigger] rest[b]).origin by {
        let a0 = if a < i {
            a
        } else {
            a + 1
        };
        let b0 = if b < i {
            b
        } else {
            b + 1
        };
        assert(rest[a] == entries[a0] && rest[b] == entries[b0]);
    }
    lemma_by_origin(entries);
    lemma_by_origin(rest);
    let target = by_origin(entries).remove(entries[i].origin);
    assert forall|o: PeerId| by_origin(rest).contains_key(o) <==> target.contains_key(o) by {
        if by_origin(rest).contains_key(o) {
            let a = choose|a: int| 0 <= a < rest.len() && (#[trigger] rest[a]).origin == o;
            let a0 = if a < i {
                a
            } else {
                a + 1
            };
            assert(rest[a] == entries[a0]);
            if a0 < i {
                assert(entries[a0].origin != entries[i].origin);
            } else {
                assert(entries[i].origin != entries[a0].origin);
            }
        }
        if target.contains_key(o) {
            let a0 = choose|a0: int|
                0 <= a0 < entries.len() && (#[trigger] entries[a0]).origin == o;
            let a = if a0 < i {
                a0
            } else {
                a0 - 1
            };
            assert(rest[a] == entries[a0]);
        }
    }
    assert forall|o: PeerId| #[trigger] by_origin(rest).contains_key(o) implies by_origin(rest)[o]
        == target[o] by {
        let a = choose|a: int|
            0 <= a < rest.len() && (#[trigger] rest[a]).origin == o && by_origin(rest)[o]
                == rest[a];
        let a0 = if a < i {
            a
        } else {
            a + 1
        };
        assert(rest[a] == entries[a0]);
        assert(by_origin(entries)[entries[a0].origin] == entries[a0]);
    }
    assert(by_origin(rest) =~= target);
}

/// Adding an entry of a new origin files it under that origin, and changes
/// nothing else.
pub proof fn lemma_push(entries: Seq<LinkEntry>, e: LinkEntry)
    requires
        distinct_origins(entries),
        !by_origin(entries).contains_key(e.origin),
    ensures
        distinct_origins(entries.push(e)),
        by_origin(entries.push(e)) == by_origin(entries).insert(e.origin, e),
{
    let all = entries.push(e);
    lemma_by_origin(entries);
    assert forall|a: int, b: int| 0 <= a < b < all.len() implies (#[trigger] all[a]).origin != (
    #[trigger] all[b]).origin by {
        assert(all[a] == entries[a]);
        if b < entries.len() {
            assert(all[b] == entries[b]);
        } else {
            assert(by_origin(entries).contains_key(entries[a].origin));
        }
    }
    lemma_by_origin(all);
    let target = by_origin(entries).insert(e.origin, e);
    assert forall|o: PeerId| by_origin(all).contains_key(o) <==> target.contains_key(o) by {
        if by_origin(all).contains_key(o) {
            let a = choose|a: int| 0 <= a < all.len() && (#[trigger] all[a]).origin == o;
            if a < entries.len() {
                assert(all[a] == entries[a]);
            }
        }
        if target.contains_key(o) {
            if o == e.origin {
                assert(all[entries.len() as int].origin == o);
            } else {
                let a = choose|a: int|
                    0 <= a < entries.len() && (#[trigger] entries[a]).origin == o;
                assert(all[a] == entries[a]);
            }
        }
    }
    assert forall|o: PeerId| #[trigger] by_origin(all).contains_key(o) implies by_origin(all)[o]
        == target[o] by {
        if o == e.origin {
            assert(all[entries.len() as int] == e);
            assert(by_origin(all)[all[entries.len() as int].origin] == all[entries.len() as int]);
        } else {
            let a = choose|a: int|
                0 <= a < entries.len() && (#[trigger] entries[a]).origin == o && by_origin(
                    entries,
                )[o] == entries[a];
            assert(all[a] == entries[a]);
            assert(by_origin(all)[all[a].origin] == all[a]);
        }
    }
    assert(by_origin(all) =~= target);
}

/// Holds of the link states that `origin` reports.
pub open spec fn reported_by(origin: PeerId) -> spec_fn(LinkState) -> bool {
    |ls: LinkState| ls.origin == origin
}

/// What is held after the link states of `batch` were handed in, in order.
pub open spec fn delivered_all(
    held: Map<PeerId, LinkEntry>,
    batch: Seq<LinkState>,
) -> Map<PeerId, LinkEntry>
    decreases batch.len(),
{
    if batch.len() == 0 {
        held
    } else {
        delivered(delivered_all(held, batch.drop_last()), batch.last())
    }
}

/// What is held of one node, if anything.
pub open spec fn entry_at(held: Map<PeerId, LinkEntry>, origin: PeerId) -> Option<LinkEntry> {
    if held.contains_key(origin) {
        Some(held[origin])
    } else {
        None
    }
}

/// What is held of `origin` after its own link states `own` were handed in,
/// in order, given what was held of it before.
pub open spec fn delivered_own(
    held: Map<PeerId, LinkEntry>,
    origin: PeerId,
    own: Seq<LinkState>,
) -> Option<LinkEntry>
    decreases own.len(),
{
    if own.len() == 0 {
        entry_at(held, origin)
    } else {
        let before = delivered_own(held, origin, own.drop_last());
        let ls = own.last();
        if !well_formed(ls.neighbors@) {
            before
        } else if before matches Some(e) && e.state is Some && e.state->0.seq >= ls.seq {
            before
        } else {
            Some(LinkEntry { origin: origin, status: NeighborState::Synchronized, state: Some(ls) })
        }
    }
}

/// What is held of a node after a batch depends only on what was held of it
/// and on its own link states in the batch, in their order.
pub proof fn lemma_delivery_per_origin(
    held: Map<PeerId, LinkEntry>,
    batch: Seq<LinkState>,
    origin: PeerId,
)
    ensures
        entry_at(delivered_all(held, batch), origin) == delivered_own(
            held,
            origin,
            batch.filter(reported_by(origin)),
        ),
    decreases batch.len(),
{
    reveal(Seq::filter);
    if batch.len() > 0 {
        let rest = batch.drop_last();
        let ls = batch.last();
        lemma_delivery_per_origin(held, rest, origin);
        let own_rest = rest.filter(reported_by(origin));
        if ls.origin == origin {
            let own = batch.filter(reported_by(origin));
            assert(own == own_rest.push(ls));
            assert(own.drop_last() =~= own_rest);
            assert(own.last() == ls);
        }
    }
}

/// The order in which link states of different origins arrive does not
/// matter: two batches that hold, for every origin, the same link states of
/// that origin in the same order leave the same held.
pub proof fn lemma_delivery_order(
    held: Map<PeerId, LinkEntry>,
    first: Seq<LinkState>,
    second: Seq<LinkState>,
)
    requires
        forall|o: PeerId| first.filter(reported_by(o)) == second.filter(reported_by(o)),
    ensures
        delivered_all(held, first) == delivered_all(held, second),
{
    let a = delivered_all(held, first);
    let b = delivered_all(held, second);
    assert forall|o: PeerId| entry_at(a, o) == entry_at(b, o) by {
        lemma_delivery_per_origin(held, first, o);
        lemma_delivery_per_origin(held, second, o);
        assert(first.filter(reported_by(o)) == second.filter(reported_by(o)));
    }
    assert forall|o: PeerId| a.contains_key(o) == b.contains_key(o) by {
        assert(entry_at(a, o) == entry_at(b, o));
    }
    assert forall|o: PeerId| #[trigger] a.contains_key(o) implies a[o] == b[o] by {
        assert(entry_at(a, o) == entry_at(b, o));
    }
    assert(a =~= b);
}

} // verus!
