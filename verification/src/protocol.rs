use vstd::prelude::*;
use crate::id::Id;
use crate::transport::RawResponse;
use crate::transport::Request;

verus! {

/// The description of a session that the two ends of a channel exchange
/// to open it.
#[derive(Clone, Debug, PartialEq, Eq)]
pub struct SessionDescription {
    pub sdp: String,
}

/// What the two ends of a new channel send each other first.
#[derive(Clone, Debug, PartialEq, Eq)]
pub struct HandshakeRequest {
    /// The public key of the sender.
    pub identity: Vec<u8>,
    /// The sender's signature of the fingerprint of its own certificate.
    pub proof: Vec<u8>,
}

/// What one end of a channel asks of the other.
#[derive(Debug, PartialEq, Eq)]
pub enum WrtcRequest {
    /// A request of the hash table.
    Req(Request),
    /// Asks to pass each offer on to the peer named with it.
    ForwardOffer(Vec<(Id, SessionDescription)>),
    /// A peer, named, offers a session.
    TryOffer(Id, SessionDescription),
    /// The sender needs the connection no longer: the other end may close
    /// it when it does not need it either.
    HalfClose,
}

/// What one end of a channel answers.
#[derive(Debug, PartialEq, Eq)]
pub enum WrtcResponse {
    Ans(RawResponse<Id>),
    ForwardAnswers(Vec<Result<SessionDescription, String>>),
    OkAnswer(Result<SessionDescription, String>),
}

#[derive(Debug, PartialEq, Eq)]
pub enum WrtcPayload {
    Req(WrtcRequest),
    Res(WrtcResponse),
}

/// One frame of a channel: a request with a new number, or the answer to
/// the request with that number.
#[derive(Debug, PartialEq, Eq)]
pub struct WrtcMessage {
    pub id: u32,
    pub payload: WrtcPayload,
}

} // verus!
