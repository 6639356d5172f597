//! The table of direct neighbours: which transport connections are
//! registered, and the snapshots taken of them.

use crate::model::{PeerConnection, PeerId, PeerInfo};
use vstd::prelude::*;

verus! {

/// Holds of the connection that is filed under `peer_id` with the
/// identifier `conn_id`.
pub open spec fn has_key(peer_id: PeerId, conn_id: u64) -> spec_fn(PeerConnection) -> bool {
    |c: PeerConnection| c.peer_id == peer_id && c.conn_id == conn_id
}

/// Holds of every connection but the one filed under `peer_id` with the
/// identifier `conn_id`.
pub open spec fn lacks_key(peer_id: PeerId, conn_id: u64) -> spec_fn(PeerConnection) -> bool {
    |c: PeerConnection| !(c.peer_id == peer_id && c.conn_id == conn_id)
}

/// Holds of the connections that their transport reports as alive.
pub open spec fn is_alive() -> spec_fn(PeerConnection) -> bool {
    |c: PeerConnection| c.alive
}

/// Holds of the connections to `peer_id`.
pub open spec fn leads_to(peer_id: PeerId) -> spec_fn(PeerConnection) -> bool {
    |c: PeerConnection| c.peer_id == peer_id
}

/// `conns` without the connection filed under `peer_id` with the identifier
/// `conn_id`.
pub open spec fn without(
    conns: Seq<PeerConnection>,
    peer_id: PeerId,
    conn_id: u64,
) -> Seq<PeerConnection> {
    conns.filter(lacks_key(peer_id, conn_id))
}

/// The connections of `conns` that are alive, in order.
pub open spec fn live(conns: Seq<PeerConnection>) -> Seq<PeerConnection> {
    conns.filter(is_alive())
}

/// `connection` as it is filed under `peer_id`.
pub open spec fn filed(connection: PeerConnection, peer_id: PeerId) -> PeerConnection {
    PeerConnection { peer_id: peer_id, ..connection }
}

/// Puts `connection`, filed under `peer_id`, in the place of the connection
/// with the same key, and leaves every other connection as it is.
pub open spec fn put_in_place(peer_id: PeerId, connection: PeerConnection) -> spec_fn(
    PeerConnection,
) -> PeerConnection {
    |c: PeerConnection|
        if c.peer_id == peer_id && c.conn_id == connection.conn_id {
            filed(connection, peer_id)
        } else {
            c
        }
}

/// No two connections share a neighbour and an identifier.
pub open spec fn distinct_keys(conns: Seq<PeerConnection>) -> bool {
    forall|i: int, j: int|
        0 <= i < j < conns.len() ==> !(conns[i].peer_id == conns[j].peer_id && conns[i].conn_id
            == conns[j].conn_id)
}

/// The neighbours that `conns` lead to, each once, in the order in which
/// their first connection stands.
pub open spec fn neighbors(conns: Seq<PeerConnection>) -> Seq<PeerId>
    decreases conns.len(),
{
    if conns.len() == 0 {
        Seq::empty()
    } else {
        let before = neighbors(conns.drop_last());
        if before.contains(conns.last().peer_id) {
            before
        } else {
            before.push(conns.last().peer_id)
        }
    }
}

/// Whether `list` groups `conns` by neighbour: one entry for each neighbour
/// in the order of `neighbors`, holding all connections to it in order.
pub open spec fn is_peer_list(list: Seq<PeerInfo>, conns: Seq<PeerConnection>) -> bool {
    &&& list.len() == neighbors(conns).len()
    &&& forall|i: int|
        0 <= i < list.len() ==> {
            &&& (#[trigger] list[i]).peer_id == neighbors(conns)[i]
            &&& list[i].conns@ == conns.filter(leads_to(neighbors(conns)[i]))
        }
}

/// The registered connections, oldest first.
pub struct PeerTable {
    conns: Vec<PeerConnection>,
}

impl View for PeerTable {
    type V = Seq<PeerConnection>;

    closed spec fn view(&self) -> Seq<PeerConnection> {
        self.conns@
    }
}

impl PeerTable {
    /// What holds of every table: no two connections share a neighbour and
    /// an identifier.
    pub open spec fn wf(&self) -> bool {
        distinct_keys(self@)
    }

    /// A table without connections.
    pub fn new() -> (table: PeerTable)
        ensures
            table@ == Seq::<PeerConnection>::empty(),
            table.wf(),
    {
        PeerTable { conns: Vec::new() }
    }

    /// Registers `connection` as a link to `peer_id`, as the youngest of the
    /// table. Other connections to the same neighbour stay; only an earlier
    /// registration under the same identifier gives way to the new one.
    pub fn add_connection(&mut self, peer_id: PeerId, connection: PeerConnection)
        requires
            old(self).wf(),
        ensures
            final(self).wf(),
            final(self)@ == without(old(self)@, peer_id, connection.conn_id).push(
                filed(connection, peer_id),
            ),
    {
        let conn_id = connection.conn_id;
        self.remove_connection(peer_id, conn_id);
        let mut connection = connection;
        connection.peer_id = peer_id;
        proof {
            lemma_without(old(self)@, peer_id, conn_id);
        }
        self.conns.push(connection);
    }

    /// Takes out the connection filed under `peer_id` with the identifier
    /// `conn_id`, and says whether there was one. Every other connection
    /// stays where it is.
    pub fn remove_connection(&mut self, peer_id: PeerId, conn_id: u64) -> (removed: bool)
        requires
            old(self).wf(),
        ensures
            final(self).wf(),
            final(self)@ == without(old(self)@, peer_id, conn_id),
            removed == exists|i: int|
                0 <= i < old(self)@.len() && has_key(peer_id, conn_id)(old(self)@[i]),
    {
        let mut kept: Vec<PeerConnection> = Vec::new();
        let mut removed = false;
        let mut i: usize = 0;
        proof {
            assert(self.conns@.take(0).filter(lacks_key(peer_id, conn_id)) =~= kept@) by {
                reveal(Seq::filter);
            }
        }
        while i < self.conns.len()
            invariant
                i <= self.conns.len(),
                self.conns@ == old(self)@,
                kept@ == self.conns@.take(i as int).filter(lacks_key(peer_id, conn_id)),
                removed == exists|j: int| 0 <= j < i && has_key(peer_id, conn_id)(self.conns@[j]),
            decreases self.conns.len() - i,
        {
            proof {
                let prefix = self.conns@.take(i as int);
                assert(self.conns@.take(i + 1) =~= prefix.push(self.conns@[i as int]));
                prefix.lemma_filter_push(self.conns@[i as int], lacks_key(peer_id, conn_id));
            }
            if self.conns[i].peer_id == peer_id && self.conns[i].conn_id == conn_id {
                removed = true;
            } else {
                kept.push(self.conns[i].clone());
            }
            i += 1;
        }
        proof {
            assert(self.conns@.take(self.conns.len() as int) =~= self.conns@);
            lemma_without(old(self)@, peer_id, conn_id);
        }
        self.conns = kept;
        removed
    }

    /// Takes over what a transport reports of a connection that is
    /// registered: `connection` takes the place of the connection filed
    /// under `peer_id` with its identifier, at the same age. Says whether
    /// there was such a connection; without one nothing changes.
    pub fn update_connection(
        &mut self,
        peer_id: PeerId,
        connection: PeerConnection,
    ) -> (found: bool)
        requires
            old(self).wf(),
        ensures
            final(self).wf(),
            final(self)@ == old(self)@.map_values(put_in_place(peer_id, connection)),
            found == exists|i: int|
                0 <= i < old(self)@.len() && has_key(peer_id, connection.conn_id)(old(self)@[i]),
    {
        let mut out: Vec<PeerConnection> = Vec::new();
        let mut found = false;
        let mut i: usize = 0;
        while i < self.conns.len()
            invariant
                i <= self.conns.len(),
                self.conns@ == old(self)@,
                out@.len() == i,
                forall|j: int|
                    0 <= j < i ==> #[trigger] out@[j] == put_in_place(peer_id, connection)(
                        self.conns@[j],
                    ),
                found == exists|j: int|
                    0 <= j < i && has_key(peer_id, connection.conn_id)(self.conns@[j]),
            decreases self.conns.len() - i,
        {
            if self.conns[i].peer_id == peer_id && self.conns[i].conn_id == connection.conn_id {
                let mut c = connection.clone();
                c.peer_id = peer_id;
                out.push(c);
                found = true;
            } else {
                out.push(self.conns[i].clone());
            }
            i += 1;
        }
        proof {
            let after = old(self)@.map_values(put_in_place(peer_id, connection));
            assert(out@ =~= after);
            assert forall|a: int, b: int| 0 <= a < b < after.len() implies !(after[a].peer_id
                == after[b].peer_id && after[a].conn_id == after[b].conn_id) by {
                assert(!(old(self)@[a].peer_id == old(self)@[b].peer_id && old(self)@[a].conn_id
                    == old(self)@[b].conn_id));
            }
        }
        self.conns = out;
        found
    }

    /// A copy of the connections that are alive, oldest first.
    pub fn snapshot(&self) -> (conns: Vec<PeerConnection>)
        ensures
            conns@ == live(self@),
    {
        let mut out: Vec<PeerConnection> = Vec::new();
        let mut i: usize = 0;
        proof {
            assert(self.conns@.take(0).filter(is_alive()) =~= out@) by {
                reveal(Seq::filter);
            }
        }
        while i < self.conns.len()
            invariant
                i <= self.conns.len(),
                out@ == self.conns@.take(i as int).filter(is_alive()),
            decreases self.conns.len() - i,
        {
            proof {
                let prefix = self.conns@.take(i as int);
                assert(self.conns@.take(i + 1) =~= prefix.push(self.conns@[i as int]));
                prefix.lemma_filter_push(self.conns@[i as int], is_alive());
            }
            if self.conns[i].alive {
                out.push(self.conns[i].clone());
            }
            i += 1;
        }
        proof {
            assert(self.conns@.take(self.conns.len() as int) =~= self.conns@);
        }
        out
    }

    /// The direct neighbours, each with its live connections.
    pub fn list_peers(&self) -> (list: Vec<PeerInfo>)
        ensures
            is_peer_list(list@, live(self@)),
    {
        let conns = self.snapshot();
        group_by_peer(&conns)
    }
}

/// Whether `peer_id` is one of `ids`.
pub fn contains_peer(ids: &Vec<PeerId>, peer_id: PeerId) -> (found: bool)
    ensures
        found == ids@.contains(peer_id),
{
    let mut i: usize = 0;
    while i < ids.len()
        invariant
            i <= ids.len(),
            forall|j: int| 0 <= j < i ==> ids@[j] != peer_id,
        decreases ids.len() - i,
    {
        if ids[i] == peer_id {
            return true;
        }
        i += 1;
    }
    false
}

/// The connections of `conns` that lead to `peer_id`, in order.
pub fn conns_to(conns: &Vec<PeerConnection>, peer_id: PeerId) -> (out: Vec<PeerConnection>)
    ensures
        out@ == conns@.filter(leads_to(peer_id)),
{
    let mut out: Vec<PeerConnection> = Vec::new();
    let mut i: usize = 0;
    proof {
        assert(conns@.take(0).filter(leads_to(peer_id)) =~= out@) by {
            reveal(Seq::filter);
        }
    }
    while i < conns.len()
        invariant
            i <= conns.len(),
            out@ == conns@.take(i as int).filter(leads_to(peer_id)),
        decreases conns.len() - i,
    {
        proof {
            let prefix = conns@.take(i as int);
            assert(conns@.take(i + 1) =~= prefix.push(conns@[i as int]));
            prefix.lemma_filter_push(conns@[i as int], leads_to(peer_id));
        }
        if conns[i].peer_id == peer_id {
            out.push(conns[i].clone());
        }
        i += 1;
    }
    proof {
        assert(conns@.take(conns.len() as int) =~= conns@);
    }
    out
}

/// Groups connections by the neighbour they lead to.
pub fn group_by_peer(conns: &Vec<PeerConnection>) -> (list: Vec<PeerInfo>)
    ensures
        is_peer_list(list@, conns@),
{
    let mut ids: Vec<PeerId> = Vec::new();
    let mut i: usize = 0;
    while i < conns.len()
        invariant
            i <= conns.len(),
            ids@ == neighbors(conns@.take(i as int)),
        decreases conns.len() - i,
    {
        proof {
            assert(conns@.take(i + 1).drop_last() =~= conns@.take(i as int));
        }
        if !contains_peer(&ids, conns[i].peer_id) {
            ids.push(conns[i].peer_id);
        }
        i += 1;
    }
    proof {
        assert(conns@.take(conns.len() as int) =~= conns@);
    }
    let mut list: Vec<PeerInfo> = Vec::new();
    let mut k: usize = 0;
    while k < ids.len()
        invariant
            k <= ids.len(),
            ids@ == neighbors(conns@),
            list@.len() == k,
            forall|j: int|
                0 <= j < k ==> {
                    &&& (#[trigger] list@[j]).peer_id == ids@[j]
                    &&& list@[j].conns@ == conns@.filter(leads_to(ids@[j]))
                },
        decreases ids.len() - k,
    {
        let peer_id = ids[k];
        list.push(PeerInfo { peer_id, conns: conns_to(conns, peer_id) });
        k += 1;
    }
    list
}

/// Taking a connection out keeps the others apart: the keys that remain are
/// distinct, none of them is the key taken out, and each connection that
/// remains was there before.
pub proof fn lemma_without(conns: Seq<PeerConnection>, peer_id: PeerId, conn_id: u64)
    requires
        distinct_keys(conns),
    ensures
        distinct_keys(without(conns, peer_id, conn_id)),
        forall|i: int|
            0 <= i < without(conns, peer_id, conn_id).len() ==> lacks_key(peer_id, conn_id)(
                #[trigger] without(conns, peer_id, conn_id)[i],
            ),
        forall|i: int|
            0 <= i < without(conns, peer_id, conn_id).len() ==> conns.contains(
                #[trigger] without(conns, peer_id, conn_id)[i],
            ),
    decreases conns.len(),
{
    reveal(Seq::filter);
    if conns.len() > 0 {
        let head = conns.drop_last();
        lemma_without(head, peer_id, conn_id);
        let rest = without(head, peer_id, conn_id);
        let all = without(conns, peer_id, conn_id);
        assert forall|i: int| 0 <= i < all.len() implies lacks_key(peer_id, conn_id)(
            #[trigger] all[i],
        ) && conns.contains(all[i]) by {
            if i < rest.len() {
                assert(head.contains(rest[i]));
                let k = choose|k: int| 0 <= k < head.len() && head[k] == rest[i];
                assert(conns[k] == rest[i]);
            } else {
                assert(all[i] == conns.last());
                assert(conns[conns.len() - 1] == all[i]);
            }
        }
        assert forall|i: int, j: int| 0 <= i < j < all.len() implies !(all[i].peer_id
            == all[j].peer_id && all[i].conn_id == all[j].conn_id) by {
            if j >= rest.len() {
                assert(head.contains(rest[i]));
                let k = choose|k: int| 0 <= k < head.len() && head[k] == rest[i];
                assert(conns[k] == rest[i]);
                assert(all[j] == conns[conns.len() - 1]);
            }
        }
    }
}

/// One call that changes the table.
pub enum TableOp {
    Add { peer_id: PeerId, connection: PeerConnection },
    Remove { peer_id: PeerId, conn_id: u64 },
}

/// The key under which a connection is filed.
pub open spec fn key_of(c: PeerConnection) -> (PeerId, u64) {
    (c.peer_id, c.conn_id)
}

/// The connections of a table, each under its key.
pub open spec fn registered(conns: Seq<PeerConnection>) -> Map<(PeerId, u64), PeerConnection> {
    Map::new(
        |k: (PeerId, u64)| exists|i: int| 0 <= i < conns.len() && key_of(#[trigger] conns[i]) == k,
        |k: (PeerId, u64)|
            conns[choose|i: int| 0 <= i < conns.len() && key_of(#[trigger] conns[i]) == k],
    )
}

/// The contents of a table after `connection` was registered for `peer_id`.
pub open spec fn added(
    conns: Seq<PeerConnection>,
    peer_id: PeerId,
    connection: PeerConnection,
) -> Seq<PeerConnection> {
    without(conns, peer_id, connection.conn_id).push(filed(connection, peer_id))
}

/// The contents of a table after one call.
pub open spec fn apply(conns: Seq<PeerConnection>, op: TableOp) -> Seq<PeerConnection> {
    match op {
        TableOp::Add { peer_id, connection } => added(conns, peer_id, connection),
        TableOp::Remove { peer_id, conn_id } => without(conns, peer_id, conn_id),
    }
}

/// The contents of a table that was empty before the calls `ops`.
pub open spec fn run(ops: Seq<TableOp>) -> Seq<PeerConnection>
    decreases ops.len(),
{
    if ops.len() == 0 {
        Seq::empty()
    } else {
        apply(run(ops.drop_last()), ops.last())
    }
}

/// The connections that the calls `ops` leave registered: each addition
/// files a connection under its key, each removal clears a key.
pub open spec fn expected(ops: Seq<TableOp>) -> Map<(PeerId, u64), PeerConnection>
    decreases ops.len(),
{
    if ops.len() == 0 {
        Map::empty()
    } else {
        match ops.last() {
            TableOp::Add { peer_id, connection } => expected(ops.drop_last()).insert(
                (peer_id, connection.conn_id),
                filed(connection, peer_id),
            ),
            TableOp::Remove { peer_id, conn_id } => expected(ops.drop_last()).remove(
                (peer_id, conn_id),
            ),
        }
    }
}

/// Whether `c` stands in one of the entries of `list`.
pub open spec fn listed(list: Seq<PeerInfo>, c: PeerConnection) -> bool {
    exists|i: int, j: int|
        0 <= i < list.len() && 0 <= j < list[i].conns@.len() && #[trigger] list[i].conns@[j] == c
}

/// With distinct keys, the map of a table holds a connection under its key
/// exactly where the table holds the connection.
pub proof fn lemma_registered(conns: Seq<PeerConnection>)
    requires
        distinct_keys(conns),
    ensures
        forall|i: int|
            0 <= i < conns.len() ==> registered(conns).contains_key(key_of(#[trigger] conns[i]))
                && registered(conns)[key_of(conns[i])] == conns[i],
        forall|k: (PeerId, u64)| #[trigger]
            registered(conns).contains_key(k) ==> conns.contains(registered(conns)[k]) && key_of(
                registered(conns)[k],
            ) == k,
{
    assert forall|i: int| 0 <= i < conns.len() implies registered(conns).contains_key(
        key_of(#[trigger] conns[i]),
    ) && registered(conns)[key_of(conns[i])] == conns[i] by {
        let k = key_of(conns[i]);
        let j = choose|j: int| 0 <= j < conns.len() && key_of(#[trigger] conns[j]) == k;
        if i < j {
            assert(!(conns[i].peer_id == conns[j].peer_id && conns[i].conn_id == conns[j].conn_id));
        } else if j < i {
            assert(!(conns[j].peer_id == conns[i].peer_id && conns[j].conn_id == conns[i].conn_id));
        }
    }
    assert forall|k: (PeerId, u64)| #[trigger]
        registered(conns).contains_key(k) implies conns.contains(registered(conns)[k]) && key_of(
        registered(conns)[k],
    ) == k by {
        let j = choose|j: int| 0 <= j < conns.len() && key_of(#[trigger] conns[j]) == k;
        assert(conns[j] == registered(conns)[k]);
    }
}

/// Taking a key out of a table takes it out of its map, and nothing else.
pub proof fn lemma_remove_clears_key(conns: Seq<PeerConnection>, peer_id: PeerId, conn_id: u64)
    requires
        distinct_keys(conns),
    ensures
        distinct_keys(without(conns, peer_id, conn_id)),
        registered(without(conns, peer_id, conn_id)) == registered(conns).remove(
            (peer_id, conn_id),
        ),
{
    let rest = without(conns, peer_id, conn_id);
    let key = (peer_id, conn_id);
    lemma_without(conns, peer_id, conn_id);
    lemma_registered(conns);
    lemma_registered(rest);
    assert forall|k: (PeerId, u64)|
        registered(rest).contains_key(k) <==> registered(conns).remove(key).contains_key(
            k,
        ) by {
        if registered(rest).contains_key(k) {
            let c = registered(rest)[k];
            let i = choose|i: int| 0 <= i < rest.len() && rest[i] == c;
            assert(lacks_key(peer_id, conn_id)(rest[i]));
            assert(conns.contains(rest[i]));
            let j = choose|j: int| 0 <= j < conns.len() && conns[j] == rest[i];
            assert(registered(conns).contains_key(key_of(conns[j])));
        }
        if registered(conns).remove(key).contains_key(k) {
            let c = registered(conns)[k];
            let j = choose|j: int| 0 <= j < conns.len() && conns[j] == c;
            assert(lacks_key(peer_id, conn_id)(conns[j]));
            conns.lemma_filter_contains(lacks_key(peer_id, conn_id), j);
            let i = choose|i: int| 0 <= i < rest.len() && rest[i] == conns[j];
            assert(registered(rest).contains_key(key_of(rest[i])));
        }
    }
    assert forall|k: (PeerId, u64)| #[trigger]
        registered(rest).contains_key(k) implies registered(rest)[k] == registered(conns).remove(
        key,
    )[k] by {
        let c = registered(rest)[k];
        let i = choose|i: int| 0 <= i < rest.len() && rest[i] == c;
        assert(conns.contains(rest[i]));
        let j = choose|j: int| 0 <= j < conns.len() && conns[j] == rest[i];
        assert(registered(conns)[key_of(conns[j])] == conns[j]);
    }
    assert(registered(rest) =~= registered(conns).remove(key));
}

/// Registering a connection files it under its key in the map of the
/// table, and changes nothing else.
pub proof fn lemma_add_files_key(
    conns: Seq<PeerConnection>,
    peer_id: PeerId,
    connection: PeerConnection,
)
    requires
        distinct_keys(conns),
    ensures
        distinct_keys(added(conns, peer_id, connection)),
        registered(added(conns, peer_id, connection)) == registered(conns).insert(
            (peer_id, connection.conn_id),
            filed(connection, peer_id),
        ),
{
    let conn_id = connection.conn_id;
    let rest = without(conns, peer_id, conn_id);
    let key = (peer_id, conn_id);
    let new = filed(connection, peer_id);
    let all = rest.push(new);
    lemma_without(conns, peer_id, conn_id);
    lemma_remove_clears_key(conns, peer_id, conn_id);
    assert(distinct_keys(all)) by {
        assert forall|i: int, j: int| 0 <= i < j < all.len() implies !(all[i].peer_id
            == all[j].peer_id && all[i].conn_id == all[j].conn_id) by {
            if j == rest.len() {
                assert(lacks_key(peer_id, conn_id)(rest[i]));
            }
        }
    }
    lemma_registered(rest);
    lemma_registered(all);
    let target = registered(conns).insert(key, new);
    assert forall|k: (PeerId, u64)| registered(all).contains_key(k) <==> target.contains_key(
        k,
    ) by {
        if registered(all).contains_key(k) {
            let c = registered(all)[k];
            let i = choose|i: int| 0 <= i < all.len() && all[i] == c;
            if i < rest.len() {
                assert(registered(rest).contains_key(key_of(rest[i])));
            }
        }
        if target.contains_key(k) {
            if k == key {
                assert(key_of(all[rest.len() as int]) == key);
            } else {
                assert(registered(rest).contains_key(k));
                let c = registered(rest)[k];
                let i = choose|i: int| 0 <= i < rest.len() && rest[i] == c;
                assert(all[i] == rest[i]);
                assert(registered(all).contains_key(key_of(all[i])));
            }
        }
    }
    assert forall|k: (PeerId, u64)| #[trigger]
        registered(all).contains_key(k) implies registered(all)[k] == target[k] by {
        if k == key {
            assert(key_of(all[rest.len() as int]) == key);
            assert(registered(all)[key_of(all[rest.len() as int])] == all[rest.len() as int]);
        } else {
            assert(registered(rest).contains_key(k));
            let c = registered(rest)[k];
            let i = choose|i: int| 0 <= i < rest.len() && rest[i] == c;
            assert(all[i] == rest[i]);
            assert(registered(all)[key_of(all[i])] == all[i]);
        }
    }
    assert(registered(all) =~= target);
}

/// Every connection leads to one of the neighbours, and every neighbour is
/// led to by a connection.
pub proof fn lemma_neighbors(conns: Seq<PeerConnection>)
    ensures
        forall|i: int| 0 <= i < conns.len() ==> neighbors(conns).contains(#[trigger] conns[i].peer_id),
        forall|k: int|
            0 <= k < neighbors(conns).len() ==> exists|i: int|
                0 <= i < conns.len() && conns[i].peer_id == #[trigger] neighbors(conns)[k],
        neighbors(conns).no_duplicates(),
    decreases conns.len(),
{
    if conns.len() > 0 {
        let head = conns.drop_last();
        lemma_neighbors(head);
        let before = neighbors(head);
        let all = neighbors(conns);
        assert forall|i: int| 0 <= i < conns.len() implies all.contains(
            #[trigger] conns[i].peer_id,
        ) by {
            if i < head.len() {
                assert(before.contains(head[i].peer_id));
                let k = choose|k: int| 0 <= k < before.len() && before[k] == head[i].peer_id;
                assert(all[k] == before[k]);
            } else {
                if before.contains(conns.last().peer_id) {
                } else {
                    assert(all[before.len() as int] == conns.last().peer_id);
                }
            }
        }
        assert forall|k: int| 0 <= k < all.len() implies exists|i: int|
            0 <= i < conns.len() && conns[i].peer_id == #[trigger] all[k] by {
            if k < before.len() {
                assert(all[k] == before[k]);
                let i = choose|i: int| 0 <= i < head.len() && head[i].peer_id == before[k];
                assert(conns[i].peer_id == all[k]);
            } else {
                assert(conns[conns.len() - 1].peer_id == all[k]);
            }
        }
    }
}

/// What a list of peers holds is what the table holds alive.
pub proof fn lemma_listing(list: Seq<PeerInfo>, conns: Seq<PeerConnection>)
    requires
        is_peer_list(list, live(conns)),
    ensures
        forall|c: PeerConnection| listed(list, c) <==> conns.contains(c) && c.alive,
{
    let alive = live(conns);
    lemma_neighbors(alive);
    assert forall|c: PeerConnection| listed(list, c) <==> conns.contains(c) && c.alive by {
        if listed(list, c) {
            let (i, j) = choose|i: int, j: int|
                0 <= i < list.len() && 0 <= j < list[i].conns@.len() && #[trigger] list[i].conns@[j]
                    == c;
            let group = alive.filter(leads_to(neighbors(alive)[i]));
            assert(group[j] == c);
            assert(group.contains(c));
            alive.lemma_filter_contains_rev(leads_to(neighbors(alive)[i]), c);
            conns.lemma_filter_contains_rev(is_alive(), c);
            let a = choose|a: int| 0 <= a < alive.len() && alive[a] == c;
            conns.lemma_filter_pred(is_alive(), a);
        }
        if conns.contains(c) && c.alive {
            let x = choose|x: int| 0 <= x < conns.len() && conns[x] == c;
            conns.lemma_filter_contains(is_alive(), x);
            let a = choose|a: int| 0 <= a < alive.len() && alive[a] == c;
            assert(neighbors(alive).contains(alive[a].peer_id));
            let i = choose|i: int| 0 <= i < neighbors(alive).len() && neighbors(alive)[i] == c.peer_id;
            alive.lemma_filter_contains(leads_to(neighbors(alive)[i]), a);
            let group = alive.filter(leads_to(neighbors(alive)[i]));
            let j = choose|j: int| 0 <= j < group.len() && group[j] == c;
            assert(list[i].conns@[j] == c);
        }
    }
}

/// Whatever calls were made on a table that started empty, its list of
/// peers holds exactly the connections that the calls left registered and
/// that are alive: none is missing and none is left over.
pub proof fn lemma_list_reflects_calls(ops: Seq<TableOp>, list: Seq<PeerInfo>)
    requires
        is_peer_list(list, live(run(ops))),
    ensures
        forall|c: PeerConnection|
            listed(list, c) <==> c.alive && expected(ops).contains_key(key_of(c)) && expected(
                ops,
            )[key_of(c)] == c,
{
    lemma_run(ops);
    lemma_listing(list, run(ops));
    lemma_registered(run(ops));
    assert forall|c: PeerConnection| run(ops).contains(c) <==> expected(ops).contains_key(
        key_of(c),
    ) && expected(ops)[key_of(c)] == c by {
        if run(ops).contains(c) {
            let i = choose|i: int| 0 <= i < run(ops).len() && run(ops)[i] == c;
            assert(registered(run(ops)).contains_key(key_of(run(ops)[i])));
        }
    }
}

/// The calls on a table keep its keys distinct, and leave in it what they
/// left registered.
pub proof fn lemma_run(ops: Seq<TableOp>)
    ensures
        distinct_keys(run(ops)),
        registered(run(ops)) == expected(ops),
    decreases ops.len(),
{
    if ops.len() == 0 {
        assert(registered(run(ops)) =~= expected(ops));
    } else {
        lemma_run(ops.drop_last());
        let before = run(ops.drop_last());
        match ops.last() {
            TableOp::Add { peer_id, connection } => {
                lemma_add_files_key(before, peer_id, connection);
            },
            TableOp::Remove { peer_id, conn_id } => {
                lemma_remove_clears_key(before, peer_id, conn_id);
            },
        }
    }
}

} // verus!
