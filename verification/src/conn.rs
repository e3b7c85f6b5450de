use vstd::prelude::*;
use vstd::string::StringExecFns;
use crate::error::PeerMessageError;
use crate::events::DisconnectReason;
use crate::id::Id;
use crate::protocol::SessionDescription;
use crate::protocol::WrtcMessage;
use crate::protocol::WrtcPayload;
use crate::protocol::WrtcRequest;
use crate::protocol::WrtcResponse;
use crate::registry::Connections;
use crate::transport::Request;
use crate::transport::TransportError;

verus! {

/// What to do about a frame that a peer has sent.
#[derive(Debug, PartialEq, Eq)]
pub enum Incoming {
    /// An answer: give it to the one who waits for the answer with this
    /// number.
    Deliver(u32, WrtcResponse),
    /// A request of the hash table: ask the node and send its answer
    /// under this number.
    Answer(u32, Request),
    /// Offers to pass on, to be answered under this number.
    Forward(u32, Vec<(Id, SessionDescription)>),
    /// An offer of a peer to which there is no connection: open one, and
    /// send the session description under this number.
    Accept(u32, Id, SessionDescription),
    /// Send this answer under this number.
    Reply(u32, WrtcResponse),
    /// Nothing to do.
    Noted,
    /// Shut the connection down, for this reason.
    Shutdown(DisconnectReason),
}

/// What to do when the last contact that kept a connection in use, other
/// than the routing table, is gone.
#[derive(Clone, Copy, Debug, PartialEq, Eq, Structural)]
pub enum ContactLost {
    /// The routing table uses the connection: it stays.
    Keep,
    /// The other end has half closed already: shut the connection down.
    Shutdown,
    /// Tell the registry that the connection is half closed, and the peer
    /// that this end needs it no longer.
    HalfClose,
}

/// What one step of passing on an offer is.
#[derive(Debug, PartialEq, Eq)]
pub enum ForwardStep {
    /// Send the request to the peer named.
    Send(Id, WrtcRequest),
    /// There is no connection to the peer.
    NotFound,
}

/// `ids` without `id`, where `id` stands once at most.
pub open spec fn without_number(ids: Seq<u32>, id: u32) -> Seq<u32> {
    if ids.contains(id) {
        ids.remove(ids.index_of(id))
    } else {
        ids
    }
}

/// The state of one connection: the numbers of the requests that wait
/// for their answer, and which end needs the connection.
pub struct InnerWrtcConnection {
    next_id: u32,
    responses: Vec<u32>,
    dont_cleanup: bool,
    other_half_closed: bool,
    this_half_closed: bool,
    closed: bool,
}

impl InnerWrtcConnection {
    /// The number that the next request gets.
    pub closed spec fn next_request_id(&self) -> u32 {
        self.next_id
    }

    /// The numbers of the requests whose answer is waited for.
    pub closed spec fn in_flight(&self) -> Seq<u32> {
        self.responses@
    }

    /// Whether the routing table uses the connection.
    pub closed spec fn dont_cleanup(&self) -> bool {
        self.dont_cleanup
    }

    /// Whether this end has said that it needs the connection no longer.
    pub closed spec fn our_half_closed(&self) -> bool {
        self.this_half_closed
    }

    /// Whether the other end has said that it needs the connection no
    /// longer.
    pub closed spec fn their_half_closed(&self) -> bool {
        self.other_half_closed
    }

    /// Whether the connection was shut down.
    pub closed spec fn is_closed(&self) -> bool {
        self.closed
    }

    /// No number waits twice.
    pub open spec fn wf(&self) -> bool {
        self.in_flight().no_duplicates()
    }

    /// The flags are as in `other`.
    pub open spec fn same_flags(&self, other: &InnerWrtcConnection) -> bool {
        &&& self.dont_cleanup() == other.dont_cleanup()
        &&& self.our_half_closed() == other.our_half_closed()
        &&& self.their_half_closed() == other.their_half_closed()
        &&& self.is_closed() == other.is_closed()
    }

    /// The state of a connection that was just opened.
    pub fn new() -> (r: InnerWrtcConnection)
        ensures
            r.wf(),
            r.next_request_id() == 0,
            r.in_flight().len() == 0,
            !r.dont_cleanup(),
            !r.our_half_closed(),
            !r.their_half_closed(),
            !r.is_closed(),
    {
        InnerWrtcConnection {
            next_id: 0,
            responses: Vec::new(),
            dont_cleanup: false,
            other_half_closed: false,
            this_half_closed: false,
            closed: false,
        }
    }

    fn find(&self, id: u32) -> (r: usize)
        ensures
            r <= self.responses@.len(),
            r < self.responses@.len() <==> self.responses@.contains(id),
            r < self.responses@.len() ==> self.responses@[r as int] == id,
    {
        let mut i: usize = 0;
        while i < self.responses.len()
            invariant
                i <= self.responses@.len(),
                forall|j: int| 0 <= j < i ==> self.responses@[j] != id,
            decreases self.responses@.len() - i,
        {
            if self.responses[i] == id {
                return i;
            }
            i += 1;
        }
        i
    }

    /// The frame that carries `mex` as the next request; the numbers of
    /// requests go round after the largest.
    pub fn wrap_message(&mut self, mex: WrtcRequest) -> (r: WrtcMessage)
        ensures
            r.id == old(self).next_request_id(),
            r.payload == WrtcPayload::Req(mex),
            final(self).next_request_id() == if old(self).next_request_id() == u32::MAX {
                0u32
            } else {
                (old(self).next_request_id() + 1) as u32
            },
            final(self).in_flight() == old(self).in_flight(),
            final(self).same_flags(old(self)),
    {
        let req_id = self.next_id;
        self.next_id = if req_id == u32::MAX {
            0
        } else {
            req_id + 1
        };
        WrtcMessage { id: req_id, payload: WrtcPayload::Req(mex) }
    }

    /// The frame to send for the request `mex`, whose answer is then waited
    /// for under the number of the frame; on a connection that was shut
    /// down the request fails.
    pub fn send_request(&mut self, mex: WrtcRequest) -> (r: Result<WrtcMessage, TransportError>)
        requires
            old(self).wf(),
        ensures
            final(self).wf(),
            final(self).same_flags(old(self)),
            old(self).is_closed() ==> r == Err::<WrtcMessage, TransportError>(
                TransportError::ConnectionLost,
            ) && final(self).in_flight() == old(self).in_flight() && final(self).next_request_id()
                == old(self).next_request_id(),
            !old(self).is_closed() ==> r == Ok::<WrtcMessage, TransportError>(
                WrtcMessage { id: old(self).next_request_id(), payload: WrtcPayload::Req(mex) },
            ) && final(self).in_flight() == if old(self).in_flight().contains(
                old(self).next_request_id(),
            ) {
                old(self).in_flight()
            } else {
                old(self).in_flight().push(old(self).next_request_id())
            } && final(self).next_request_id() == if old(self).next_request_id() == u32::MAX {
                0u32
            } else {
                (old(self).next_request_id() + 1) as u32
            },
    {
        if self.closed {
            return Err(TransportError::ConnectionLost);
        }
        let message = self.wrap_message(mex);
        let at = self.find(message.id);
        if at >= self.responses.len() {
            self.responses.push(message.id);
            proof {
                let before = old(self).in_flight();
                assert forall|a: int, b: int|
                    0 <= a < before.push(message.id).len() && 0 <= b < before.push(message.id).len() && a
                        != b implies before.push(message.id)[a] != before.push(message.id)[b] by {
                    if a < before.len() {
                        assert(before.contains(before[a]));
                    }
                    if b < before.len() {
                        assert(before.contains(before[b]));
                    }
                }
            }
        }
        Ok(message)
    }

    /// Notes that the request with this number could not be sent: nobody
    /// waits for its answer any more. Returns whether somebody did, who is
    /// to be told that the connection is lost.
    pub fn send_failed(&mut self, id: u32) -> (r: bool)
        requires
            old(self).wf(),
        ensures
            final(self).wf(),
            final(self).same_flags(old(self)),
            final(self).next_request_id() == old(self).next_request_id(),
            r == old(self).in_flight().contains(id),
            final(self).in_flight() == without_number(old(self).in_flight(), id),
            !final(self).in_flight().contains(id),
    {
        self.take_waiter(id)
    }

    fn take_waiter(&mut self, id: u32) -> (r: bool)
        requires
            old(self).wf(),
        ensures
            final(self).wf(),
            final(self).same_flags(old(self)),
            final(self).next_request_id() == old(self).next_request_id(),
            r == old(self).in_flight().contains(id),
            final(self).in_flight() == without_number(old(self).in_flight(), id),
            !final(self).in_flight().contains(id),
    {
        let at = self.find(id);
        if at >= self.responses.len() {
            return false;
        }
        let ghost before = self.responses@;
        proof {
            // the one index at which the number stands
            let chosen = before.index_of(id);
            assert(before[chosen] == id);
            assert(chosen == at);
        }
        self.responses.remove(at);
        proof {
            let after = self.responses@;
            assert forall|a: int, b: int| 0 <= a < after.len() && 0 <= b < after.len() && a != b implies after[a]
                != after[b] by {
                let sa = if a < at { a } else { a + 1 };
                let sb = if b < at { b } else { b + 1 };
                assert(after[a] == before[sa]);
                assert(after[b] == before[sb]);
            }
            if after.contains(id) {
                let w = choose|w: int| 0 <= w < after.len() && after[w] == id;
                let sw = if w < at { w } else { w + 1 };
                assert(before[sw] == id);
            }
        }
        true
    }

    /// Says whether the routing table uses the connection.
    pub fn set_dont_cleanup(&mut self, dont_cleanup: bool)
        ensures
            final(self).dont_cleanup() == dont_cleanup,
            final(self).our_half_closed() == old(self).our_half_closed(),
            final(self).their_half_closed() == old(self).their_half_closed(),
            final(self).is_closed() == old(self).is_closed(),
            final(self).in_flight() == old(self).in_flight(),
            final(self).next_request_id() == old(self).next_request_id(),
    {
        self.dont_cleanup = dont_cleanup;
    }

    /// Whether this end has half closed the connection.
    pub fn this_half_closed(&self) -> (r: bool)
        ensures
            r == self.our_half_closed(),
    {
        self.this_half_closed
    }

    /// What `on_contact_lost` decides in this state.
    pub open spec fn contact_lost(&self) -> ContactLost {
        if self.dont_cleanup() {
            ContactLost::Keep
        } else if self.their_half_closed() {
            ContactLost::Shutdown
        } else {
            ContactLost::HalfClose
        }
    }

    /// The last contact that kept the connection in use is gone. A
    /// connection that the routing table uses stays as it is. One that
    /// the other end has half closed is to be shut down, both ends having
    /// given it up. Any other is half closed from this end.
    pub fn on_contact_lost(&mut self) -> (r: ContactLost)
        ensures
            r == old(self).contact_lost(),
            final(self).our_half_closed() == (old(self).our_half_closed() || r is HalfClose),
            final(self).dont_cleanup() == old(self).dont_cleanup(),
            final(self).their_half_closed() == old(self).their_half_closed(),
            final(self).is_closed() == old(self).is_closed(),
            final(self).in_flight() == old(self).in_flight(),
            final(self).next_request_id() == old(self).next_request_id(),
    {
        if self.dont_cleanup {
            return ContactLost::Keep;
        }
        if self.other_half_closed {
            return ContactLost::Shutdown;
        }
        self.this_half_closed = true;
        ContactLost::HalfClose
    }

    /// Shuts the connection down: whoever waits for an answer is to be
    /// told that the connection is lost, and every later request fails.
    /// Returns the numbers that were waited for.
    pub fn shutdown_local(&mut self) -> (r: Vec<u32>)
        ensures
            r@ == old(self).in_flight(),
            final(self).in_flight().len() == 0,
            final(self).is_closed(),
            final(self).wf(),
            final(self).dont_cleanup() == old(self).dont_cleanup(),
            final(self).our_half_closed() == old(self).our_half_closed(),
            final(self).their_half_closed() == old(self).their_half_closed(),
            final(self).next_request_id() == old(self).next_request_id(),
    {
        let mut drained: Vec<u32> = Vec::new();
        core::mem::swap(&mut drained, &mut self.responses);
        self.closed = true;
        drained
    }

    /// Decides what to do about the frame `msg` of the peer, given the
    /// connections of the node. An answer goes to the one who waits for
    /// it; an answer that nobody waits for is an error, which ends the
    /// connection. A request of the hash table is to be answered by the
    /// node. Offers to pass on are to be passed on. The offer of a peer is
    /// taken if there is no connection to that peer. A half close is noted,
    /// and ends the connection if this end has half closed too.
    pub fn process_message(&mut self, msg: WrtcMessage, root: &Connections) -> (r: Result<
        Incoming,
        PeerMessageError,
    >)
        requires
            old(self).wf(),
        ensures
            final(self).wf(),
            final(self).next_request_id() == old(self).next_request_id(),
            final(self).dont_cleanup() == old(self).dont_cleanup(),
            final(self).our_half_closed() == old(self).our_half_closed(),
            final(self).is_closed() == old(self).is_closed(),
            match msg.payload {
                WrtcPayload::Res(answer) => {
                    &&& final(self).in_flight() == without_number(old(self).in_flight(), msg.id)
                    &&& final(self).their_half_closed() == old(self).their_half_closed()
                    &&& r == if old(self).in_flight().contains(msg.id) {
                        Ok::<Incoming, PeerMessageError>(Incoming::Deliver(msg.id, answer))
                    } else {
                        Err::<Incoming, PeerMessageError>(PeerMessageError::UnknownAnswerId)
                    }
                },
                WrtcPayload::Req(WrtcRequest::Req(request)) => {
                    &&& final(self).in_flight() == old(self).in_flight()
                    &&& final(self).their_half_closed() == old(self).their_half_closed()
                    &&& r == Ok::<Incoming, PeerMessageError>(Incoming::Answer(msg.id, request))
                },
                WrtcPayload::Req(WrtcRequest::ForwardOffer(offers)) => {
                    &&& final(self).in_flight() == old(self).in_flight()
                    &&& final(self).their_half_closed() == old(self).their_half_closed()
                    &&& r == Ok::<Incoming, PeerMessageError>(Incoming::Forward(msg.id, offers))
                },
                WrtcPayload::Req(WrtcRequest::TryOffer(id, offer)) => {
                    &&& final(self).in_flight() == old(self).in_flight()
                    &&& final(self).their_half_closed() == old(self).their_half_closed()
                    &&& root.peers().contains(id) ==> (r matches Ok(Incoming::Reply(number, answer))
                        && number == msg.id && (answer matches WrtcResponse::OkAnswer(Err(text))
                        && text@ == "already_connected"@))
                    &&& !root.peers().contains(id) ==> r == Ok::<Incoming, PeerMessageError>(
                        Incoming::Accept(msg.id, id, offer),
                    )
                },
                WrtcPayload::Req(WrtcRequest::HalfClose) => {
                    &&& final(self).in_flight() == old(self).in_flight()
                    &&& final(self).their_half_closed()
                    &&& r == Ok::<Incoming, PeerMessageError>(
                        if old(self).our_half_closed() {
                            Incoming::Shutdown(DisconnectReason::HalfCloseBoth)
                        } else {
                            Incoming::Noted
                        },
                    )
                },
            },
    {
        let number = msg.id;
        let req = match msg.payload {
            WrtcPayload::Req(x) => x,
            WrtcPayload::Res(x) => {
                if self.take_waiter(number) {
                    return Ok(Incoming::Deliver(number, x));
                }
                return Err(PeerMessageError::UnknownAnswerId);
            },
        };
        match req {
            WrtcRequest::Req(x) => Ok(Incoming::Answer(number, x)),
            WrtcRequest::ForwardOffer(offers) => Ok(Incoming::Forward(number, offers)),
            WrtcRequest::TryOffer(id, offer) => {
                if root.is_connected(id) {
                    Ok(
                        Incoming::Reply(
                            number,
                            WrtcResponse::OkAnswer(Err(String::from_str("already_connected"))),
                        ),
                    )
                } else {
                    Ok(Incoming::Accept(number, id, offer))
                }
            },
            WrtcRequest::HalfClose => {
                self.other_half_closed = true;
                if self.this_half_closed {
                    Ok(Incoming::Shutdown(DisconnectReason::HalfCloseBoth))
                } else {
                    Ok(Incoming::Noted)
                }
            },
        }
    }
}

/// What to send for each offer that the peer `peer_id` asks to pass on:
/// the offer itself, in the peer's name, to each peer that the node is
/// connected to.
pub fn plan_forward(root: &Connections, peer_id: Id, offers: Vec<(Id, SessionDescription)>) -> (r: Vec<
    ForwardStep,
>)
    ensures
        r@.len() == offers@.len(),
        forall|i: int|
            0 <= i < r@.len() ==> (#[trigger] r@[i]) == if root.peers().contains(offers@[i].0) {
                ForwardStep::Send(offers@[i].0, WrtcRequest::TryOffer(peer_id, offers@[i].1))
            } else {
                ForwardStep::NotFound
            },
{
    let ghost whole = offers@;
    let mut rest = offers;
    let mut out: Vec<ForwardStep> = Vec::new();
    while rest.len() > 0
        invariant
            out@.len() + rest@.len() == whole.len(),
            rest@ == whole.skip(out@.len() as int),
            forall|i: int|
                0 <= i < out@.len() ==> (#[trigger] out@[i]) == if root.peers().contains(whole[i].0) {
                    ForwardStep::Send(whole[i].0, WrtcRequest::TryOffer(peer_id, whole[i].1))
                } else {
                    ForwardStep::NotFound
                },
        decreases rest@.len(),
    {
        let (id, offer) = rest.remove(0);
        let step = if root.is_connected(id) {
            ForwardStep::Send(id, WrtcRequest::TryOffer(peer_id, offer))
        } else {
            ForwardStep::NotFound
        };
        out.push(step);
        proof {
            assert(rest@ =~= whole.skip(out@.len() as int));
        }
    }
    out
}

/// What the one who asked to pass an offer on is told, given what came
/// back from the peer that the offer was sent to.
pub fn forward_answer(res: Result<WrtcResponse, TransportError>) -> (r: Result<SessionDescription, String>)
    ensures
        match res {
            Ok(WrtcResponse::OkAnswer(answer)) => r == answer,
            Ok(_) => r matches Err(text) && text@ == "peer_error"@,
            Err(_) => r matches Err(text) && text@ == "not_found"@,
        },
{
    match res {
        Ok(WrtcResponse::OkAnswer(x)) => x,
        Ok(_) => Err(String::from_str("peer_error")),
        Err(_) => Err(String::from_str("not_found")),
    }
}

/// What the one who asked to pass an offer on is told when there is no
/// connection to the peer.
pub fn forward_not_found() -> (r: Result<SessionDescription, String>)
    ensures
        r matches Err(text) && text@ == "not_found"@,
{
    Err(String::from_str("not_found"))
}

/// What became of each of `count` offers that were passed on, given the
/// answers that came back, in order: the answer to open the channel with,
/// or why there is none. Offers beyond the answers have no answer.
pub fn match_answers(count: usize, answers: Vec<Result<SessionDescription, String>>) -> (r: Vec<
    Result<SessionDescription, String>,
>)
    ensures
        r@.len() == count,
        forall|i: int|
            0 <= i < count ==> if i < answers@.len() {
                match answers@[i] {
                    Ok(answer) => (#[trigger] r@[i]) == Ok::<SessionDescription, String>(answer),
                    Err(text) => r@[i] matches Err(told) && told@ == "Client responded with error: "@
                        + text@,
                }
            } else {
                r@[i] matches Err(told) && told@ == "Client returned no forwarded response for id"@
            },
{
    let ghost whole = answers@;
    let mut rest = answers;
    let mut out: Vec<Result<SessionDescription, String>> = Vec::new();
    while out.len() < count
        invariant
            out@.len() <= count,
            rest@ == whole.skip(
                if out@.len() < whole.len() {
                    out@.len() as int
                } else {
                    whole.len() as int
                },
            ),
            forall|i: int|
                0 <= i < out@.len() ==> if i < whole.len() {
                    match whole[i] {
                        Ok(answer) => (#[trigger] out@[i]) == Ok::<SessionDescription, String>(answer),
                        Err(text) => out@[i] matches Err(told) && told@
                            == "Client responded with error: "@ + text@,
                    }
                } else {
                    out@[i] matches Err(told) && told@ == "Client returned no forwarded response for id"@
                },
        decreases count - out@.len(),
    {
        let told = if rest.len() > 0 {
            match rest.remove(0) {
                Ok(x) => Ok(x),
                Err(x) => Err(String::from_str("Client responded with error: ").concat(x.as_str())),
            }
        } else {
            Err(String::from_str("Client returned no forwarded response for id"))
        };
        out.push(told);
        proof {
            assert(rest@ =~= whole.skip(
                if out@.len() < whole.len() {
                    out@.len() as int
                } else {
                    whole.len() as int
                },
            ));
        }
    }
    out
}

/// Which of the peers that another peer has named are to be reached: those
/// to which the node has no connection, in their order.
pub fn unknown_peers(root: &Connections, ids: &Vec<Id>) -> (r: Vec<Id>)
    ensures
        r@ == crate::seqs::keep(ids@, |x: Id| !root.peers().contains(x)),
{
    let mut out: Vec<Id> = Vec::new();
    let mut i: usize = 0;
    while i < ids.len()
        invariant
            i <= ids@.len(),
            out@ == crate::seqs::keep(ids@.take(i as int), |x: Id| !root.peers().contains(x)),
        decreases ids@.len() - i,
    {
        proof {
            assert(ids@.take(i + 1).drop_last() =~= ids@.take(i as int));
        }
        if !root.is_connected(ids[i]) {
            out.push(ids[i]);
        }
        i += 1;
    }
    proof {
        assert(ids@.take(i as int) =~= ids@);
    }
    out
}

/// The contacts of the peers that another peer has named, in their order:
/// those that were known, and in the places of the others, one after the
/// other, those that were reached; a peer that was not reached is left
/// out.
pub open spec fn pieced<C>(known: Seq<Option<C>>, reached: Seq<Option<C>>) -> Seq<C>
    decreases known.len(),
{
    if known.len() == 0 {
        Seq::empty()
    } else {
        match known[0] {
            Some(contact) => seq![contact] + pieced(known.drop_first(), reached),
            None => if reached.len() == 0 {
                pieced(known.drop_first(), reached)
            } else {
                match reached[0] {
                    Some(contact) => seq![contact] + pieced(known.drop_first(), reached.drop_first()),
                    None => pieced(known.drop_first(), reached.drop_first()),
                }
            },
        }
    }
}

/// Puts the contacts that were known and those that were reached together
/// again, in the order in which the peers were named.
pub fn piece_together<C>(known: Vec<Option<C>>, reached: Vec<Option<C>>) -> (r: Vec<C>)
    ensures
        r@ == pieced(known@, reached@),
{
    let ghost all_known = known@;
    let ghost all_reached = reached@;
    let mut known = known;
    let mut reached = reached;
    let mut out: Vec<C> = Vec::new();
    while known.len() > 0
        invariant
            out@ + pieced(known@, reached@) == pieced(all_known, all_reached),
        decreases known@.len(),
    {
        let ghost k = known@;
        let ghost f = reached@;
        let ghost sofar = out@;
        let first = known.remove(0);
        proof {
            assert(known@ =~= k.drop_first());
        }
        match first {
            Some(contact) => {
                out.push(contact);
                proof {
                    assert(sofar.push(contact) + pieced(known@, reached@) =~= sofar + (seq![contact]
                        + pieced(known@, reached@)));
                }
            },
            None => {
                if reached.len() > 0 {
                    match reached.remove(0) {
                        Some(contact) => {
                            out.push(contact);
                            proof {
                                assert(reached@ =~= f.drop_first());
                                assert(sofar.push(contact) + pieced(known@, reached@) =~= sofar + (
                                seq![contact] + pieced(known@, reached@)));
                            }
                        },
                        None => {
                            proof {
                                assert(reached@ =~= f.drop_first());
                            }
                        },
                    }
                }
            },
        }
    }
    proof {
        assert(out@ + Seq::<C>::empty() =~= out@);
    }
    out
}

} // verus!
