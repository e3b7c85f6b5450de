use vstd::prelude::*;
use crate::error::HandshakeError;
use crate::id::Id;
use crate::kbucket::lemma_position_bounds;
use crate::kbucket::position;

verus! {

/// What became of a request for a connection permit.
#[derive(Clone, Copy, Debug, PartialEq, Eq)]
pub enum Admission {
    /// No permit: the registry is shutting down, or is full and nothing
    /// can make room.
    Denied,
    /// A permit, counted.
    Admitted,
    /// A permit in place of the connection to the peer named, which had
    /// been half closed the longest and is to be shut down.
    Replaced(Id),
}

/// What became of a channel once its handshake was over.
#[derive(Clone, Debug, PartialEq, Eq)]
pub enum Registration {
    /// The handshake failed: the permit is given back.
    Failed(HandshakeError),
    /// A later attempt to reach the same peer has taken over: the permit
    /// is given back.
    AlreadyConnecting,
    /// A connection to the peer is registered already: the new one is
    /// dropped.
    IdConflict(Id),
    /// The connection is registered under the peer's identifier.
    Registered(Id),
}

fn index_in(ids: &Vec<Id>, id: Id) -> (r: usize)
    ensures
        r == position(ids@, id),
        r <= ids@.len(),
        r < ids@.len() <==> ids@.contains(id),
        r < ids@.len() ==> ids@[r as int] == id,
{
    let mut i: usize = 0;
    while i < ids.len()
        invariant
            i <= ids@.len(),
            forall|j: int| 0 <= j < i ==> ids@[j] != id,
        decreases ids@.len() - i,
    {
        if ids[i] == id {
            proof {
                crate::kbucket::lemma_position(ids@, id, i as int);
                lemma_position_bounds(ids@, id);
            }
            return i;
        }
        i += 1;
    }
    proof {
        crate::kbucket::lemma_position(ids@, id, i as int);
        lemma_position_bounds(ids@, id);
    }
    i
}

/// `ids` without the first occurrence of `id`.
pub open spec fn dropped(ids: Seq<Id>, id: Id) -> Seq<Id> {
    if position(ids, id) < ids.len() {
        ids.remove(position(ids, id))
    } else {
        ids
    }
}

/// Dropping an identifier from distinct ones leaves distinct ones, without
/// it, and no other is lost.
pub proof fn lemma_dropped(ids: Seq<Id>, id: Id)
    requires
        ids.no_duplicates(),
    ensures
        dropped(ids, id).no_duplicates(),
        !dropped(ids, id).contains(id),
        forall|x: Id| x != id ==> dropped(ids, id).contains(x) == ids.contains(x),
        dropped(ids, id).len() == ids.len() - if ids.contains(id) {
            1int
        } else {
            0int
        },
{
    lemma_position_bounds(ids, id);
    let p = position(ids, id);
    let out = dropped(ids, id);
    if p < ids.len() {
        assert forall|a: int, b: int| 0 <= a < out.len() && 0 <= b < out.len() && a != b implies out[a]
            != out[b] by {
            let sa = if a < p { a } else { a + 1 };
            let sb = if b < p { b } else { b + 1 };
            assert(out[a] == ids[sa]);
            assert(out[b] == ids[sb]);
        }
        if out.contains(id) {
            let w = choose|w: int| 0 <= w < out.len() && out[w] == id;
            let sw = if w < p { w } else { w + 1 };
            assert(ids[sw] == id);
        }
        assert forall|x: Id| x != id implies out.contains(x) == ids.contains(x) by {
            if out.contains(x) {
                let w = choose|w: int| 0 <= w < out.len() && out[w] == x;
                let sw = if w < p { w } else { w + 1 };
                assert(ids[sw] == x);
            }
            if ids.contains(x) {
                let v = choose|v: int| 0 <= v < ids.len() && ids[v] == x;
                let w = if v < p { v } else { v - 1 };
                assert(out[w] == x);
            }
        }
    }
}

/// The connections of one node: which peers are connected, how many
/// permits are out, and which connections are half closed and so can make
/// room for new ones.
pub struct Connections {
    self_id: Id,
    max_connections: Option<u64>,
    is_shutting_down: bool,
    connection_count: u64,
    connected_count: u64,
    connections: Vec<Id>,
    half_closed_connections: Vec<Id>,
    half_closed_count: u64,
}

impl Connections {
    /// The identifier of the node.
    pub closed spec fn own_id(&self) -> Id {
        self.self_id
    }

    /// The largest number of permits, if limited.
    pub closed spec fn limit(&self) -> Option<u64> {
        self.max_connections
    }

    pub closed spec fn shutting_down(&self) -> bool {
        self.is_shutting_down
    }

    /// The number of permits that are out: connections that are open or
    /// being opened.
    pub closed spec fn permits(&self) -> nat {
        self.connection_count as nat
    }

    /// The number of connections whose handshake is over.
    pub closed spec fn connected(&self) -> nat {
        self.connected_count as nat
    }

    /// The peers that connections are registered for.
    pub closed spec fn peers(&self) -> Seq<Id> {
        self.connections@
    }

    /// The peers whose connections are half closed, the longest first.
    pub closed spec fn half_closed(&self) -> Seq<Id> {
        self.half_closed_connections@
    }

    /// The number of half-closed connections that the registry counts.
    pub closed spec fn half_closed_number(&self) -> nat {
        self.half_closed_count as nat
    }

    /// No more permits are out than the limit allows; no more connections
    /// are connected than permits are out, nor registered than connected;
    /// a peer is registered once; the half-closed connections are
    /// registered ones, each once, and counted.
    pub open spec fn wf(&self) -> bool {
        &&& self.limit() matches Some(max) ==> self.permits() <= max
        &&& self.connected() <= self.permits()
        &&& self.peers().len() <= self.connected()
        &&& self.peers().no_duplicates()
        &&& self.half_closed().no_duplicates()
        &&& self.half_closed().len() == self.half_closed_number()
        &&& forall|id: Id| self.half_closed().contains(id) ==> self.peers().contains(id)
    }

    /// Everything but the counts and the lists is as in `other`.
    pub open spec fn same_setting(&self, other: &Connections) -> bool {
        &&& self.own_id() == other.own_id()
        &&& self.limit() == other.limit()
    }

    /// A registry without connections.
    pub fn new(self_id: Id, max_connections: Option<u64>) -> (r: Connections)
        ensures
            r.wf(),
            r.own_id() == self_id,
            r.limit() == max_connections,
            !r.shutting_down(),
            r.permits() == 0,
            r.connected() == 0,
            r.peers().len() == 0,
            r.half_closed().len() == 0,
    {
        Connections {
            self_id,
            max_connections,
            is_shutting_down: false,
            connection_count: 0,
            connected_count: 0,
            connections: Vec::new(),
            half_closed_connections: Vec::new(),
            half_closed_count: 0,
        }
    }

    /// The number of permits that are out.
    pub fn connection_count(&self) -> (r: u64)
        ensures
            r == self.permits(),
    {
        self.connection_count
    }

    /// The number of connections whose handshake is over.
    pub fn connected_count(&self) -> (r: u64)
        ensures
            r == self.connected(),
    {
        self.connected_count
    }

    /// Whether a connection to `id` is registered.
    pub fn is_connected(&self, id: Id) -> (r: bool)
        ensures
            r == self.peers().contains(id),
    {
        index_in(&self.connections, id) < self.connections.len()
    }

    /// What `alloc_connection` answers in this state.
    pub open spec fn admission(&self) -> Admission {
        if self.shutting_down() {
            Admission::Denied
        } else if self.permits() < match self.limit() {
            Some(max) => max,
            None => u64::MAX,
        } {
            Admission::Admitted
        } else if self.half_closed().len() > 0 {
            Admission::Replaced(self.half_closed()[0])
        } else {
            Admission::Denied
        }
    }

    /// Asks for a permit to open a connection. While permits are left one
    /// is handed out and counted. When none is left, the connection that
    /// has been half closed the longest makes room: it leaves the
    /// registry and its permit passes on, so that the number of permits
    /// stays. Else the permit is denied, and nothing changes.
    pub fn alloc_connection(&mut self) -> (r: Admission)
        requires
            old(self).wf(),
        ensures
            final(self).wf(),
            final(self).same_setting(old(self)),
            final(self).shutting_down() == old(self).shutting_down(),
            r == old(self).admission(),
            match r {
                Admission::Denied => {
                    &&& final(self).permits() == old(self).permits()
                    &&& final(self).connected() == old(self).connected()
                    &&& final(self).peers() == old(self).peers()
                    &&& final(self).half_closed() == old(self).half_closed()
                },
                Admission::Admitted => {
                    &&& final(self).permits() == old(self).permits() + 1
                    &&& final(self).connected() == old(self).connected()
                    &&& final(self).peers() == old(self).peers()
                    &&& final(self).half_closed() == old(self).half_closed()
                },
                Admission::Replaced(id) => {
                    &&& final(self).permits() == old(self).permits()
                    &&& final(self).connected() == old(self).connected() - 1
                    &&& final(self).peers() == dropped(old(self).peers(), id)
                    &&& final(self).half_closed() == old(self).half_closed().remove(0)
                },
            },
    {
        if self.is_shutting_down {
            return Admission::Denied;
        }
        let limit: u64 = match self.max_connections {
            Some(max) => max,
            None => u64::MAX,
        };
        if self.connection_count < limit {
            self.connection_count += 1;
            return Admission::Admitted;
        }
        if self.half_closed_count == 0 {
            return Admission::Denied;
        }
        let id = self.half_closed_connections.remove(0);
        self.half_closed_count -= 1;
        let at = index_in(&self.connections, id);
        proof {
            let queue = old(self).half_closed();
            assert(queue[0] == id);
            assert(queue.contains(id));
            lemma_dropped(old(self).peers(), id);
            assert forall|a: int, b: int|
                0 <= a < queue.remove(0).len() && 0 <= b < queue.remove(0).len() && a
                    != b implies queue.remove(0)[a] != queue.remove(0)[b] by {
                assert(queue.remove(0)[a] == queue[a + 1]);
                assert(queue.remove(0)[b] == queue[b + 1]);
            }
            assert forall|x: Id| queue.remove(0).contains(x) implies dropped(
                old(self).peers(),
                id,
            ).contains(x) by {
                let w = choose|w: int| 0 <= w < queue.remove(0).len() && queue.remove(0)[w] == x;
                assert(queue[w + 1] == x);
                assert(queue.contains(x));
                assert(x != id);
            }
        }
        self.connections.remove(at);
        self.connected_count -= 1;
        Admission::Replaced(id)
    }

    /// Gives back a permit for a connection that did not come about.
    pub fn release(&mut self)
        requires
            old(self).wf(),
        ensures
            final(self).wf(),
            final(self).same_setting(old(self)),
            final(self).shutting_down() == old(self).shutting_down(),
            final(self).permits() == if old(self).permits() > old(self).connected() {
                old(self).permits() - 1
            } else {
                old(self).permits() as int
            },
            final(self).connected() == old(self).connected(),
            final(self).peers() == old(self).peers(),
            final(self).half_closed() == old(self).half_closed(),
    {
        if self.connection_count > self.connected_count {
            self.connection_count -= 1;
        }
    }

    /// Settles a channel whose handshake is over, for an attempt that holds
    /// a permit. `is_last` says whether the attempt is still the one that
    /// counts for its peer. A failed or superseded attempt gives its
    /// permit back. A good one counts as connected, and is registered
    /// unless its peer is registered already.
    pub fn after_handshake(&mut self, res: Result<Id, HandshakeError>, is_last: bool) -> (r: Registration)
        requires
            old(self).wf(),
            old(self).connected() < old(self).permits(),
        ensures
            final(self).wf(),
            final(self).same_setting(old(self)),
            final(self).shutting_down() == old(self).shutting_down(),
            final(self).half_closed() == old(self).half_closed(),
            match res {
                Err(e) => {
                    &&& r == Registration::Failed(e)
                    &&& final(self).permits() == old(self).permits() - 1
                    &&& final(self).connected() == old(self).connected()
                    &&& final(self).peers() == old(self).peers()
                },
                Ok(id) => if !is_last {
                    &&& r == Registration::AlreadyConnecting
                    &&& final(self).permits() == old(self).permits() - 1
                    &&& final(self).connected() == old(self).connected()
                    &&& final(self).peers() == old(self).peers()
                } else if old(self).peers().contains(id) {
                    &&& r == Registration::IdConflict(id)
                    &&& final(self).permits() == old(self).permits()
                    &&& final(self).connected() == old(self).connected() + 1
                    &&& final(self).peers() == old(self).peers()
                } else {
                    &&& r == Registration::Registered(id)
                    &&& final(self).permits() == old(self).permits()
                    &&& final(self).connected() == old(self).connected() + 1
                    &&& final(self).peers() == old(self).peers().push(id)
                },
            },
    {
        let id = match res {
            Ok(id) => id,
            Err(e) => {
                self.connection_count -= 1;
                return Registration::Failed(e);
            },
        };
        if !is_last {
            self.connection_count -= 1;
            return Registration::AlreadyConnecting;
        }
        self.connected_count += 1;
        if self.is_connected(id) {
            return Registration::IdConflict(id);
        }
        self.connections.push(id);
        proof {
            let before = old(self).peers();
            assert forall|a: int, b: int|
                0 <= a < before.push(id).len() && 0 <= b < before.push(id).len() && a
                    != b implies before.push(id)[a] != before.push(id)[b] by {
                if a < before.len() {
                    assert(before.contains(before[a]));
                }
                if b < before.len() {
                    assert(before.contains(before[b]));
                }
            }
            assert forall|x: Id| self.half_closed().contains(x) implies before.push(id).contains(x) by {
                let w = choose|w: int| 0 <= w < before.len() && before[w] == x;
                assert(before.push(id)[w] == x);
            }
        }
        Registration::Registered(id)
    }

    /// Notes that the connection to `conn` is half closed, so that it can
    /// make room when permits run out. Only a registered connection that
    /// is not noted yet is noted.
    pub fn on_half_closed(&mut self, conn: Id)
        requires
            old(self).wf(),
        ensures
            final(self).wf(),
            final(self).same_setting(old(self)),
            final(self).shutting_down() == old(self).shutting_down(),
            final(self).permits() == old(self).permits(),
            final(self).connected() == old(self).connected(),
            final(self).peers() == old(self).peers(),
            final(self).half_closed() == if old(self).peers().contains(conn) && !old(self).half_closed().contains(conn) {
                old(self).half_closed().push(conn)
            } else {
                old(self).half_closed()
            },
    {
        if !self.is_connected(conn) {
            return ;
        }
        if index_in(&self.half_closed_connections, conn) < self.half_closed_connections.len() {
            return ;
        }
        proof {
            // The queue holds registered peers, each once, and these are no
            // more than the connected ones: its count cannot overflow.
            let before = old(self).half_closed();
            assert forall|a: int, b: int|
                0 <= a < before.push(conn).len() && 0 <= b < before.push(conn).len() && a
                    != b implies before.push(conn)[a] != before.push(conn)[b] by {
                if a < before.len() {
                    assert(before.contains(before[a]));
                }
                if b < before.len() {
                    assert(before.contains(before[b]));
                }
            }
            assert forall|x: Id| before.push(conn).contains(x) implies old(self).peers().contains(x) by {
                let w = choose|w: int| 0 <= w < before.push(conn).len() && before.push(conn)[w] == x;
                if w < before.len() {
                    assert(before.contains(x));
                }
            }
            lemma_subset_len(before.push(conn), old(self).peers());
        }
        self.half_closed_connections.push(conn);
        self.half_closed_count += 1;
        proof {
            let before = old(self).half_closed();
            assert forall|a: int, b: int|
                0 <= a < before.push(conn).len() && 0 <= b < before.push(conn).len() && a
                    != b implies before.push(conn)[a] != before.push(conn)[b] by {
                if a < before.len() {
                    assert(before.contains(before[a]));
                }
                if b < before.len() {
                    assert(before.contains(before[b]));
                }
            }
            assert forall|x: Id| before.push(conn).contains(x) implies self.peers().contains(x) by {
                let w = choose|w: int| 0 <= w < before.push(conn).len() && before.push(conn)[w] == x;
                if w < before.len() {
                    assert(before.contains(x));
                }
            }
        }
    }

    /// Notes that the connection to `peer_id` is gone: the peer is
    /// registered no longer, nor noted as half closed. With
    /// `update_conn_count` the connection also counts no longer, and its
    /// permit is given back.
    pub fn on_disconnect(&mut self, peer_id: Id, update_conn_count: bool)
        requires
            old(self).wf(),
        ensures
            final(self).wf(),
            final(self).same_setting(old(self)),
            final(self).shutting_down() == old(self).shutting_down(),
            final(self).peers() == dropped(old(self).peers(), peer_id),
            final(self).half_closed() == dropped(old(self).half_closed(), peer_id),
            !update_conn_count ==> final(self).permits() == old(self).permits() && final(self).connected()
                == old(self).connected(),
            update_conn_count && (old(self).peers().contains(peer_id) || old(self).connected() > old(self).peers().len()) ==> final(self).permits() == old(self).permits() - 1 && final(self).connected() == old(self).connected() - 1,
            final(self).permits() <= old(self).permits(),
            final(self).connected() <= old(self).connected(),
    {
        proof {
            lemma_dropped(old(self).peers(), peer_id);
            lemma_dropped(old(self).half_closed(), peer_id);
        }
        let at = index_in(&self.connections, peer_id);
        let present = at < self.connections.len();
        if present {
            self.connections.remove(at);
        }
        let queued = index_in(&self.half_closed_connections, peer_id);
        if queued < self.half_closed_connections.len() {
            self.half_closed_connections.remove(queued);
            self.half_closed_count -= 1;
        }
        if update_conn_count {
            if present || self.connected_count > self.connections.len() as u64 {
                self.connected_count -= 1;
                self.connection_count -= 1;
            } else if self.connection_count > self.connected_count {
                self.connection_count -= 1;
            }
        }
        proof {
            assert forall|x: Id| self.half_closed().contains(x) implies self.peers().contains(x) by {
                assert(old(self).half_closed().contains(x));
            }
        }
    }

    /// Shuts the registry down: no permit is given any more, and every
    /// connection is gone. Returns the peers that were connected, each of
    /// which is to be told so. A registry that is shut down already
    /// returns none.
    pub fn shutdown(&mut self) -> (r: Vec<Id>)
        requires
            old(self).wf(),
        ensures
            final(self).wf(),
            final(self).same_setting(old(self)),
            final(self).shutting_down(),
            old(self).shutting_down() ==> r@.len() == 0 && final(self).peers() == old(self).peers()
                && final(self).permits() == old(self).permits(),
            !old(self).shutting_down() ==> r@ == old(self).peers() && final(self).peers().len() == 0
                && final(self).half_closed().len() == 0 && final(self).permits() == old(self).permits()
                - old(self).peers().len() && final(self).connected() == old(self).connected() - old(self).peers().len(),
    {
        let mut drained: Vec<Id> = Vec::new();
        if self.is_shutting_down {
            return drained;
        }
        self.is_shutting_down = true;
        while self.connections.len() > 0
            invariant
                self.wf(),
                self.same_setting(old(self)),
                self.shutting_down(),
                drained@ + self.peers() == old(self).peers(),
                self.permits() == old(self).permits() - drained@.len(),
                self.connected() == old(self).connected() - drained@.len(),
            decreases self.peers().len(),
        {
            let id = self.connections[0];
            let ghost before = self.peers();
            proof {
                crate::kbucket::lemma_position(before, id, 0);
                assert(before.contains(id));
            }
            self.on_disconnect(id, true);
            proof {
                assert(drained@.push(id) + before.remove(0) =~= drained@ + before);
            }
            drained.push(id);
        }
        proof {
            assert(drained@ + self.peers() =~= drained@);
            if self.half_closed().len() > 0 {
                assert(self.half_closed().contains(self.half_closed()[0]));
            }
        }
        drained
    }
}

/// Distinct elements that all occur in another sequence are no more than
/// that sequence has.
pub proof fn lemma_subset_len(a: Seq<Id>, b: Seq<Id>)
    requires
        a.no_duplicates(),
        forall|x: Id| a.contains(x) ==> b.contains(x),
    ensures
        a.len() <= b.len(),
    decreases a.len(),
{
    if a.len() > 0 {
        let x = a.last();
        assert(a.contains(x));
        let i = choose|i: int| 0 <= i < b.len() && b[i] == x;
        let a2 = a.drop_last();
        let b2 = b.remove(i);
        assert forall|y: Id| a2.contains(y) implies b2.contains(y) by {
            let w = choose|w: int| 0 <= w < a2.len() && a2[w] == y;
            assert(a[w] == y);
            assert(a.contains(y));
            assert(y != x);
            let v = choose|v: int| 0 <= v < b.len() && b[v] == y;
            if v < i {
                assert(b2[v] == y);
            } else {
                assert(b2[v - 1] == y);
            }
        }
        lemma_subset_len(a2, b2);
    }
}

} // verus!
