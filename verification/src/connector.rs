use vstd::prelude::*;
use crate::id::Id;

verus! {

/// The right to settle one attempt to reach a peer. Of several attempts
/// to reach the same peer only the last one made counts.
#[derive(Clone, Copy, Debug, PartialEq, Eq)]
pub struct CreatingConnectionSender {
    /// The peer to reach, if it is known.
    pub peer_id: Option<Id>,
    /// The number of the attempt.
    pub id: usize,
    /// Whether the attempt was settled.
    pub message_sent: bool,
}

/// What settling an attempt comes to.
#[derive(Clone, Copy, Debug, PartialEq, Eq)]
pub struct Settled {
    /// Whether those who wait for the peer are told the outcome.
    pub announced: bool,
    /// Whether the attempt was the one that counted for its peer, which is
    /// now no longer being reached.
    pub removed: bool,
}

/// The number of the attempt that counts for `id`, if `id` is being
/// reached.
pub open spec fn generation_of(pending: Seq<(Id, usize)>, id: Id) -> Option<usize>
    decreases pending.len(),
{
    if pending.len() == 0 {
        None
    } else if pending[0].0 == id {
        Some(pending[0].1)
    } else {
        generation_of(pending.drop_first(), id)
    }
}

/// Whether an offer from the peer `id` is taken by the node `own`, which
/// is (`reaching`) or is not reaching that peer itself: when both reach
/// for each other, the offer of the lower identifier wins.
pub open spec fn passive_accepted(own: Id, reaching: bool, id: Id) -> bool {
    !reaching || id.value() < own.value()
}

/// The index of the record of `id` among `pending`, or their number if
/// there is none.
pub open spec fn slot_of(pending: Seq<(Id, usize)>, id: Id) -> int
    decreases pending.len(),
{
    if pending.len() == 0 {
        0
    } else if pending[0].0 == id {
        0
    } else {
        1 + slot_of(pending.drop_first(), id)
    }
}

/// The records once the attempt `generation` counts for `id`.
pub open spec fn recorded(pending: Seq<(Id, usize)>, id: Id, generation: usize) -> Seq<(Id, usize)> {
    let at = slot_of(pending, id);
    if at < pending.len() {
        pending.update(at, (id, generation))
    } else {
        pending.push((id, generation))
    }
}

/// The records of the node `own`, and the number of the attempt made if
/// one is made, once the peer `id` has offered a session.
pub open spec fn after_passive(own: Id, pending: Seq<(Id, usize)>, next: usize, id: Id) -> (
    Seq<(Id, usize)>,
    Option<usize>,
) {
    if passive_accepted(own, generation_of(pending, id) is Some, id) {
        (recorded(pending, id, next), Some(next))
    } else {
        (pending, None)
    }
}

/// Each peer is recorded once, with an attempt made before the next one.
pub open spec fn pending_wf(pending: Seq<(Id, usize)>, next: usize) -> bool {
    &&& forall|a: int, b: int|
        0 <= a < pending.len() && 0 <= b < pending.len() && a != b ==> (#[trigger] pending[a]).0 != (
        #[trigger] pending[b]).0
    &&& forall|a: int| 0 <= a < pending.len() ==> (#[trigger] pending[a]).1 < next
}

/// The peers that a node is trying to reach, so that attempts to reach
/// the same peer are not made twice.
pub struct WrtcConnector {
    dht_id: Id,
    connecting: Vec<(Id, usize)>,
    sender_id: usize,
}

proof fn lemma_generation_at(pending: Seq<(Id, usize)>, id: Id, i: int)
    requires
        0 <= i <= pending.len(),
        forall|j: int| 0 <= j < i ==> (#[trigger] pending[j]).0 != id,
        i < pending.len() ==> pending[i].0 == id,
    ensures
        generation_of(pending, id) == if i < pending.len() {
            Some(pending[i].1)
        } else {
            None
        },
        slot_of(pending, id) == i,
    decreases pending.len(),
{
    if pending.len() > 0 && i > 0 {
        assert(pending[0].0 != id);
        let rest = pending.drop_first();
        assert forall|j: int| 0 <= j < i - 1 implies (#[trigger] rest[j]).0 != id by {
            assert(rest[j] == pending[j + 1]);
        }
        lemma_generation_at(rest, id, i - 1);
    }
}

impl WrtcConnector {
    /// The identifier of the node.
    pub closed spec fn own_id(&self) -> Id {
        self.dht_id
    }

    /// The peers being reached, each with the number of the attempt that
    /// counts for it.
    pub closed spec fn pending(&self) -> Seq<(Id, usize)> {
        self.connecting@
    }

    /// The number that the next attempt gets.
    pub closed spec fn next(&self) -> usize {
        self.sender_id
    }

    /// The attempt that counts for `id`, if `id` is being reached.
    pub open spec fn generation(&self, id: Id) -> Option<usize> {
        generation_of(self.pending(), id)
    }

    /// Each peer is being reached once, by an attempt made before the
    /// next one.
    pub open spec fn wf(&self) -> bool {
        pending_wf(self.pending(), self.next())
    }

    /// Whether `sender` is the attempt that counts for its peer; an attempt
    /// to reach an unknown peer always counts.
    pub open spec fn counts(&self, sender: CreatingConnectionSender) -> bool {
        match sender.peer_id {
            Some(id) => self.generation(id) == Some(sender.id),
            None => true,
        }
    }

    /// A connector that reaches for nobody.
    pub fn new(id: Id) -> (r: WrtcConnector)
        ensures
            r.wf(),
            r.own_id() == id,
            r.pending().len() == 0,
            r.next() == 0,
            forall|x: Id| r.generation(x) is None,
    {
        WrtcConnector { dht_id: id, connecting: Vec::new(), sender_id: 0 }
    }

    fn find(&self, id: Id) -> (r: usize)
        ensures
            r <= self.connecting@.len(),
            r < self.connecting@.len() ==> self.connecting@[r as int].0 == id,
            forall|j: int| 0 <= j < r ==> (#[trigger] self.connecting@[j]).0 != id,
            self.generation(id) == if r < self.connecting@.len() {
                Some(self.connecting@[r as int].1)
            } else {
                None
            },
            r == slot_of(self.connecting@, id),
    {
        let mut i: usize = 0;
        while i < self.connecting.len()
            invariant
                i <= self.connecting@.len(),
                forall|j: int| 0 <= j < i ==> (#[trigger] self.connecting@[j]).0 != id,
            decreases self.connecting@.len() - i,
        {
            if self.connecting[i].0 == id {
                proof {
                    lemma_generation_at(self.connecting@, id, i as int);
                }
                return i;
            }
            i += 1;
        }
        proof {
            lemma_generation_at(self.connecting@, id, i as int);
        }
        i
    }

    /// Whether another attempt can be numbered.
    pub fn can_attempt(&self) -> (r: bool)
        ensures
            r == (self.next() < usize::MAX),
    {
        self.sender_id < usize::MAX
    }

    /// Whether the peer `id` is being reached.
    pub fn is_connecting(&self, id: Id) -> (r: bool)
        ensures
            r == self.generation(id) is Some,
    {
        self.find(id) < self.connecting.len()
    }

    /// An attempt to reach a peer that is not known yet: it is recorded
    /// nowhere and always counts.
    pub fn create_unknown(&self) -> (r: CreatingConnectionSender)
        ensures
            r.peer_id is None,
            r.id == 0,
            !r.message_sent,
            self.counts(r),
    {
        CreatingConnectionSender { peer_id: None, id: 0, message_sent: false }
    }

    /// Starts to reach the peer `id` from this side, unless it is being
    /// reached already: then nothing changes, and the caller waits for the
    /// attempt under way.
    pub fn create_active(&mut self, id: Id) -> (r: Option<CreatingConnectionSender>)
        requires
            old(self).wf(),
            old(self).next() < usize::MAX,
        ensures
            r is Some ==> final(self).pending() == recorded(old(self).pending(), id, old(self).next())
                && final(self).next() == old(self).next() + 1,
            final(self).wf(),
            final(self).own_id() == old(self).own_id(),
            r is Some <==> old(self).generation(id) is None,
            r is None ==> final(self).pending() == old(self).pending() && final(self).next() == old(
                self,
            ).next(),
            r matches Some(sender) ==> sender.peer_id == Some(id) && sender.id == old(self).next()
                && !sender.message_sent && final(self).counts(sender),
            forall|other: Id| other != id ==> final(self).generation(other) == old(self).generation(other),
    {
        if self.is_connecting(id) {
            return None;
        }
        self.create_passive(id)
    }

    /// Takes up the offer of the peer `id`. If the peer is not being
    /// reached, the attempt is recorded. If it is, the peer and the node
    /// reach for each other at once, and the lower identifier wins: the
    /// offer of a peer below the node takes over from the node's own
    /// attempt, the offer of a peer above it is turned away.
    pub fn create_passive(&mut self, id: Id) -> (r: Option<CreatingConnectionSender>)
        requires
            old(self).wf(),
            old(self).next() < usize::MAX,
        ensures
            final(self).pending() == after_passive(
                old(self).own_id(),
                old(self).pending(),
                old(self).next(),
                id,
            ).0,
            r is Some ==> final(self).next() == old(self).next() + 1,
            final(self).wf(),
            final(self).own_id() == old(self).own_id(),
            r is Some <==> passive_accepted(old(self).own_id(), old(self).generation(id) is Some, id),
            r is None ==> final(self).pending() == old(self).pending() && final(self).next() == old(
                self,
            ).next(),
            r matches Some(sender) ==> sender.peer_id == Some(id) && sender.id == old(self).next()
                && !sender.message_sent && final(self).counts(sender),
            forall|other: Id| other != id ==> final(self).generation(other) == old(self).generation(other),
    {
        let at = self.find(id);
        let ghost before = self.connecting@;
        if at < self.connecting.len() {
            if !id.value_lt(&self.dht_id) {
                return None;
            }
            let sender_id = self.sender_id;
            self.sender_id = sender_id + 1;
            self.connecting[at] = (id, sender_id);
            proof {
                let after = self.connecting@;
                assert forall|a: int, b: int|
                    0 <= a < after.len() && 0 <= b < after.len() && a != b implies (
                #[trigger] after[a]).0 != (#[trigger] after[b]).0 by {
                    assert(after[a].0 == before[a].0);
                    assert(after[b].0 == before[b].0);
                }
                assert forall|a: int| 0 <= a < after.len() implies (#[trigger] after[a]).1
                    < self.sender_id by {
                    if a != at {
                        assert(after[a] == before[a]);
                    }
                }
                lemma_generation_at(after, id, at as int);
                assert forall|other: Id| other != id implies generation_of(after, other)
                    == generation_of(before, other) by {
                    lemma_generation_same(before, after, id, other);
                }
            }
            Some(CreatingConnectionSender { peer_id: Some(id), id: sender_id, message_sent: false })
        } else {
            let sender_id = self.sender_id;
            self.sender_id = sender_id + 1;
            self.connecting.push((id, sender_id));
            proof {
                let after = self.connecting@;
                assert forall|a: int, b: int|
                    0 <= a < after.len() && 0 <= b < after.len() && a != b implies (
                #[trigger] after[a]).0 != (#[trigger] after[b]).0 by {
                    if a < before.len() {
                        assert(after[a] == before[a]);
                    }
                    if b < before.len() {
                        assert(after[b] == before[b]);
                    }
                }
                assert forall|a: int| 0 <= a < after.len() implies (#[trigger] after[a]).1
                    < self.sender_id by {
                    if a < before.len() {
                        assert(after[a] == before[a]);
                    }
                }
                lemma_generation_at(after, id, at as int);
                assert forall|other: Id| other != id implies generation_of(after, other)
                    == generation_of(before, other) by {
                    lemma_generation_same(before, after, id, other);
                }
            }
            Some(CreatingConnectionSender { peer_id: Some(id), id: sender_id, message_sent: false })
        }
    }

    /// Whether `sender` is the attempt that counts for its peer.
    pub fn is_last(&self, sender: &CreatingConnectionSender) -> (r: bool)
        ensures
            r == self.counts(*sender),
    {
        match sender.peer_id {
            Some(id) => {
                let at = self.find(id);
                at < self.connecting.len() && self.connecting[at].1 == sender.id
            },
            None => true,
        }
    }

    /// Settles the attempt `sender`. The one that counts for its peer is
    /// announced to those who wait, and the peer is no longer being
    /// reached; one that was taken over is not announced and changes
    /// nothing; one for an unknown peer is announced.
    pub fn send(&mut self, sender: CreatingConnectionSender) -> (r: Settled)
        requires
            old(self).wf(),
        ensures
            final(self).wf(),
            final(self).own_id() == old(self).own_id(),
            final(self).next() == old(self).next(),
            r.announced == old(self).counts(sender),
            r.removed == (sender.peer_id is Some && old(self).counts(sender)),
            !r.removed ==> final(self).pending() == old(self).pending(),
            r.removed ==> final(self).generation(sender.peer_id.unwrap()) is None,
            forall|other: Id|
                sender.peer_id != Some(other) ==> final(self).generation(other) == old(self).generation(
                    other,
                ),
    {
        let id = match sender.peer_id {
            Some(id) => id,
            None => {
                return Settled { announced: true, removed: false };
            },
        };
        let at = self.find(id);
        if at < self.connecting.len() && self.connecting[at].1 == sender.id {
            let ghost before = self.connecting@;
            self.connecting.remove(at);
            proof {
                let after = self.connecting@;
                assert forall|a: int, b: int|
                    0 <= a < after.len() && 0 <= b < after.len() && a != b implies (
                #[trigger] after[a]).0 != (#[trigger] after[b]).0 by {
                    let sa = if a < at { a } else { a + 1 };
                    let sb = if b < at { b } else { b + 1 };
                    assert(after[a] == before[sa]);
                    assert(after[b] == before[sb]);
                }
                assert forall|a: int| 0 <= a < after.len() implies (#[trigger] after[a]).1
                    < self.sender_id by {
                    let sa = if a < at { a } else { a + 1 };
                    assert(after[a] == before[sa]);
                }
                assert forall|j: int| 0 <= j < after.len() implies (#[trigger] after[j]).0 != id by {
                    let sj = if j < at { j } else { j + 1 };
                    assert(after[j] == before[sj]);
                    assert(before[sj].0 != before[at as int].0);
                }
                lemma_generation_at(after, id, after.len() as int);
                assert forall|other: Id| other != id implies generation_of(after, other)
                    == generation_of(before, other) by {
                    lemma_generation_removed(before, at as int, other);
                }
            }
            Settled { announced: true, removed: true }
        } else {
            Settled { announced: false, removed: false }
        }
    }
}

/// Changing or adding the record of one peer changes no other peer's.
proof fn lemma_generation_same(before: Seq<(Id, usize)>, after: Seq<(Id, usize)>, id: Id, other: Id)
    requires
        other != id,
        after.len() >= before.len(),
        forall|j: int| 0 <= j < before.len() ==> (#[trigger] after[j]) == before[j] || (after[j].0 == id
            && before[j].0 == id),
        forall|j: int| before.len() <= j < after.len() ==> (#[trigger] after[j]).0 == id,
    ensures
        generation_of(after, other) == generation_of(before, other),
    decreases after.len(),
{
    if before.len() == 0 {
        if after.len() > 0 {
            assert(after[0].0 == id);
            let rest = after.drop_first();
            assert forall|j: int| 0 <= j < rest.len() implies (#[trigger] rest[j]).0 == id by {
                assert(rest[j] == after[j + 1]);
            }
            lemma_generation_same(before, rest, id, other);
        }
    } else {
        let b = before.drop_first();
        let a = after.drop_first();
        assert(after[0] == before[0] || (after[0].0 == id && before[0].0 == id));
        assert forall|j: int| 0 <= j < b.len() implies (#[trigger] a[j]) == b[j] || (a[j].0 == id
            && b[j].0 == id) by {
            assert(a[j] == after[j + 1]);
            assert(b[j] == before[j + 1]);
        }
        assert forall|j: int| b.len() <= j < a.len() implies (#[trigger] a[j]).0 == id by {
            assert(a[j] == after[j + 1]);
        }
        lemma_generation_same(b, a, id, other);
    }
}

/// Dropping the record of one peer changes no other peer's.
proof fn lemma_generation_removed(before: Seq<(Id, usize)>, at: int, other: Id)
    requires
        0 <= at < before.len(),
        before[at].0 != other,
    ensures
        generation_of(before.remove(at), other) == generation_of(before, other),
    decreases before.len(),
{
    if at == 0 {
        assert(before.remove(0) =~= before.drop_first());
    } else {
        assert(before.remove(at).drop_first() =~= before.drop_first().remove(at - 1));
        assert(before.remove(at)[0] == before[0]);
        if before[0].0 != other {
            lemma_generation_removed(before.drop_first(), at - 1, other);
        }
    }
}

/// Where two nodes reach for each other at once, one connection is left:
/// the one that the node with the lower identifier has started. At the
/// lower node the offer of the higher one is turned away, and the node's
/// own attempt goes on. At the higher node the offer of the lower one is
/// taken and takes over from the node's own attempt, which counts no
/// longer.
pub proof fn lemma_same_id_conflict(
    low: Id,
    low_pending: Seq<(Id, usize)>,
    low_next: usize,
    high: Id,
    high_pending: Seq<(Id, usize)>,
    high_next: usize,
)
    requires
        pending_wf(low_pending, low_next),
        pending_wf(high_pending, high_next),
        low.value() < high.value(),
        generation_of(low_pending, high) is Some,
        generation_of(high_pending, low) is Some,
    ensures
        after_passive(low, low_pending, low_next, high) == (low_pending, None::<usize>),
        after_passive(high, high_pending, high_next, low).1 == Some(high_next),
        generation_of(after_passive(high, high_pending, high_next, low).0, low) == Some(high_next),
        generation_of(high_pending, low) != Some(high_next),
{
    lemma_slot(high_pending, low);
    let at = slot_of(high_pending, low);
    lemma_generation_at(recorded(high_pending, low, high_next), low, at);
}

/// Where the record of a peer stands.
proof fn lemma_slot(pending: Seq<(Id, usize)>, id: Id)
    ensures
        0 <= slot_of(pending, id) <= pending.len(),
        forall|j: int| 0 <= j < slot_of(pending, id) ==> (#[trigger] pending[j]).0 != id,
        slot_of(pending, id) < pending.len() ==> pending[slot_of(pending, id)].0 == id && generation_of(
            pending,
            id,
        ) == Some(pending[slot_of(pending, id)].1),
        slot_of(pending, id) == pending.len() ==> generation_of(pending, id) is None,
    decreases pending.len(),
{
    if pending.len() > 0 && pending[0].0 != id {
        let rest = pending.drop_first();
        lemma_slot(rest, id);
        assert forall|j: int| 0 <= j < slot_of(pending, id) implies (#[trigger] pending[j]).0 != id by {
            if j > 0 {
                assert(pending[j] == rest[j - 1]);
            }
        }
        if slot_of(rest, id) < rest.len() {
            assert(pending[slot_of(pending, id)] == rest[slot_of(rest, id)]);
        }
    }
}

} // verus!
