use vstd::prelude::*;
use crate::id::Id;

verus! {

/// One published value of a topic.
#[derive(Clone, Debug, PartialEq, Eq)]
pub struct TopicEntry {
    pub publisher: Id,
    pub data: Vec<u8>,
}

/// What one peer asks of another.
#[derive(Clone, Debug, PartialEq, Eq)]
pub enum Request {
    /// Asks for the known identifiers closest to the given one.
    FindNodes(Id),
    /// Asks for at most so many values of a topic, or else for closer
    /// identifiers.
    FindData(Id, u32),
    /// Publishes a value under a topic for so many seconds.
    Insert(Id, u32, Vec<u8>),
    /// Withdraws the sender's value from a topic.
    Remove(Id),
}

/// What a peer answers, with contacts of type `T`.
#[derive(Clone, Debug, PartialEq, Eq)]
pub enum RawResponse<T> {
    FoundNodes(Vec<T>),
    FoundData(Vec<TopicEntry>),
    /// The request was carried out.
    Done,
    /// The request was refused.
    Error,
}

/// An answer as it crosses the network: contacts are bare identifiers.
pub type Response = RawResponse<Id>;

/// Why a request could not be delivered or answered.
#[derive(Clone, Debug, PartialEq, Eq)]
pub enum TransportError {
    ConnectionLost,
    ContactLost,
    UnknownError(String),
}

/// A handle that keeps a peer reachable and names it.
pub trait Contact: Sized {
    /// The identifier of the peer.
    spec fn spec_id(&self) -> Id;

    fn id(&self) -> (r: Id)
        ensures
            r == self.spec_id(),
    ;
}

impl Contact for Id {
    open spec fn spec_id(&self) -> Id {
        *self
    }

    fn id(&self) -> (r: Id) {
        *self
    }
}

/// The part of a transport that the node uses without waiting.
pub trait TransportSender {
    /// The handle by which this transport keeps a peer reachable.
    type Contact: Contact;

    /// Checks that the peer is still there; a transport disconnects a peer
    /// that does not answer.
    fn ping(&self, id: &Id);

    /// The contact of a peer that the routing table holds, or of the node
    /// itself.
    fn wrap_contact(&self, id: Id) -> (c: Self::Contact)
        ensures
            c.spec_id() == id,
    ;
}

/// The calls by which a transport reports to the node.
pub trait TransportListener {
    /// Whether the listener is in a state to take calls.
    spec fn listening(&self) -> bool;

    /// A peer has connected. Returns true only if the identifier is now
    /// used for routing.
    fn on_connect(&mut self, id: Id) -> (r: bool)
        requires
            old(self).listening(),
        ensures
            final(self).listening(),
    ;

    /// A peer has gone.
    fn on_disconnect(&mut self, id: Id)
        requires
            old(self).listening(),
        ensures
            final(self).listening(),
    ;

    /// A peer asks something: the answer to send.
    fn on_request(&mut self, sender: Id, request: Request) -> (r: Response)
        requires
            old(self).listening(),
        ensures
            final(self).listening(),
    ;
}

} // verus!
