use vstd::prelude::*;
use vstd::string::StringExecFns;
use crate::id::Id;
use crate::transport::TransportError;

verus! {

/// Why a key could not be used.
#[derive(Clone, Debug, PartialEq, Eq)]
#[non_exhaustive]
pub enum CryptoError {
    ImportKeyError,
    InternalError(String),
}

/// What went wrong with a channel or with opening it.
#[derive(Clone, Debug, PartialEq, Eq)]
#[non_exhaustive]
pub enum WrtcError {
    DataChannelError(String),
    ConnectionLost,
    SignalingFailed,
    InvalidDescription,
    RuntimeError(String),
}

/// Why a new channel did not lead to a connection.
#[derive(Clone, Debug, PartialEq, Eq)]
#[non_exhaustive]
pub enum HandshakeError {
    BadFormat,
    InvalidIdentity,
    ConnectionLost,
    OpenedChannel,
    /// A connection to the same peer was there already.
    IdConflict(Id),
    Wrtc(WrtcError),
    Internal(String),
}

/// Why the transport could not do what it was asked.
#[derive(Clone, Debug, PartialEq, Eq)]
pub enum WrtcTransportError {
    WrtcError(WrtcError),
    InvalidMessage,
    ConnectionLimitReached,
    AlreadyConnecting,
    Handshake(HandshakeError),
    Transport(TransportError),
    UnknownError(String),
}

/// Why a frame of a peer was not taken.
#[derive(Clone, Debug, PartialEq, Eq)]
#[non_exhaustive]
pub enum PeerMessageError {
    TransportError(WrtcTransportError),
    WrongFormat(String),
    UnknownAnswerId,
    UnknownInternalError(String),
}

fn joined(head: &str, tail: &str) -> (r: String)
    ensures
        r@ == head@ + tail@,
{
    String::from_str(head).concat(tail)
}

impl CryptoError {
    /// What the error says.
    pub open spec fn spec_message(self) -> Seq<char> {
        match self {
            CryptoError::ImportKeyError => "Error importing key"@,
            CryptoError::InternalError(text) => "Unknown internal error: "@ + text@,
        }
    }

    /// What the error says.
    pub fn message(&self) -> (r: String)
        ensures
            r@ == self.spec_message(),
    {
        match self {
            CryptoError::ImportKeyError => String::from_str("Error importing key"),
            CryptoError::InternalError(text) => joined("Unknown internal error: ", text.as_str()),
        }
    }
}

impl WrtcError {
    /// What the error says.
    pub open spec fn spec_message(self) -> Seq<char> {
        match self {
            WrtcError::DataChannelError(text) => "DataChannel error "@ + text@,
            WrtcError::ConnectionLost => "Connection lost"@,
            WrtcError::SignalingFailed => "Singaling failed"@,
            WrtcError::InvalidDescription => "Invalid session description"@,
            WrtcError::RuntimeError(text) => "Unknown runtime error: "@ + text@,
        }
    }

    /// What the error says.
    pub fn message(&self) -> (r: String)
        ensures
            r@ == self.spec_message(),
    {
        match self {
            WrtcError::DataChannelError(text) => joined("DataChannel error ", text.as_str()),
            WrtcError::ConnectionLost => String::from_str("Connection lost"),
            WrtcError::SignalingFailed => String::from_str("Singaling failed"),
            WrtcError::InvalidDescription => String::from_str("Invalid session description"),
            WrtcError::RuntimeError(text) => joined("Unknown runtime error: ", text.as_str()),
        }
    }
}

impl TransportError {
    /// What the error says.
    pub open spec fn spec_message(self) -> Seq<char> {
        match self {
            TransportError::ConnectionLost => "Client connection lost"@,
            TransportError::ContactLost => "Cannot find client address"@,
            TransportError::UnknownError(text) => "Unknown transport error "@ + text@,
        }
    }

    /// What the error says.
    pub fn message(&self) -> (r: String)
        ensures
            r@ == self.spec_message(),
    {
        match self {
            TransportError::ConnectionLost => String::from_str("Client connection lost"),
            TransportError::ContactLost => String::from_str("Cannot find client address"),
            TransportError::UnknownError(text) => joined("Unknown transport error ", text.as_str()),
        }
    }
}

impl HandshakeError {
    /// What the error says.
    pub open spec fn spec_message(self) -> Seq<char> {
        match self {
            HandshakeError::BadFormat => "Received message with bad format"@,
            HandshakeError::InvalidIdentity => "Provided identity is invalid"@,
            HandshakeError::ConnectionLost => "Connection lost"@,
            HandshakeError::OpenedChannel => "Channel opened"@,
            HandshakeError::IdConflict(_) => "A channel with the same ID was already open"@,
            HandshakeError::Wrtc(e) => "WebRTC error: "@ + e.spec_message(),
            HandshakeError::Internal(text) => "Internal error: "@ + text@,
        }
    }

    /// What the error says.
    pub fn message(&self) -> (r: String)
        ensures
            r@ == self.spec_message(),
    {
        match self {
            HandshakeError::BadFormat => String::from_str("Received message with bad format"),
            HandshakeError::InvalidIdentity => String::from_str("Provided identity is invalid"),
            HandshakeError::ConnectionLost => String::from_str("Connection lost"),
            HandshakeError::OpenedChannel => String::from_str("Channel opened"),
            HandshakeError::IdConflict(_) => String::from_str(
                "A channel with the same ID was already open",
            ),
            HandshakeError::Wrtc(e) => joined("WebRTC error: ", e.message().as_str()),
            HandshakeError::Internal(text) => joined("Internal error: ", text.as_str()),
        }
    }
}

impl WrtcTransportError {
    /// What the error says.
    pub open spec fn spec_message(self) -> Seq<char> {
        match self {
            WrtcTransportError::WrtcError(e) => e.spec_message(),
            WrtcTransportError::InvalidMessage => "Invalid message received"@,
            WrtcTransportError::ConnectionLimitReached => "Connection limit reached"@,
            WrtcTransportError::AlreadyConnecting => "Already connecting to that id"@,
            WrtcTransportError::Handshake(e) => "Error occurred during handshake: "@ + e.spec_message(),
            WrtcTransportError::Transport(e) => "Transport error: "@ + e.spec_message(),
            WrtcTransportError::UnknownError(text) => "Unknown error: "@ + text@,
        }
    }

    /// What the error says.
    pub fn message(&self) -> (r: String)
        ensures
            r@ == self.spec_message(),
    {
        match self {
            WrtcTransportError::WrtcError(e) => e.message(),
            WrtcTransportError::InvalidMessage => String::from_str("Invalid message received"),
            WrtcTransportError::ConnectionLimitReached => String::from_str("Connection limit reached"),
            WrtcTransportError::AlreadyConnecting => String::from_str("Already connecting to that id"),
            WrtcTransportError::Handshake(e) => joined(
                "Error occurred during handshake: ",
                e.message().as_str(),
            ),
            WrtcTransportError::Transport(e) => joined("Transport error: ", e.message().as_str()),
            WrtcTransportError::UnknownError(text) => joined("Unknown error: ", text.as_str()),
        }
    }
}

impl PeerMessageError {
    /// What the error says.
    pub open spec fn spec_message(self) -> Seq<char> {
        match self {
            PeerMessageError::TransportError(e) => "Transport error: "@ + e.spec_message(),
            PeerMessageError::WrongFormat(text) => "Wrong message format: "@ + text@,
            PeerMessageError::UnknownAnswerId => "Unknown answer id"@,
            PeerMessageError::UnknownInternalError(text) => "Unknown internal error: "@ + text@,
        }
    }

    /// What the error says.
    pub fn message(&self) -> (r: String)
        ensures
            r@ == self.spec_message(),
    {
        match self {
            PeerMessageError::TransportError(e) => joined("Transport error: ", e.message().as_str()),
            PeerMessageError::WrongFormat(text) => joined("Wrong message format: ", text.as_str()),
            PeerMessageError::UnknownAnswerId => String::from_str("Unknown answer id"),
            PeerMessageError::UnknownInternalError(text) => joined(
                "Unknown internal error: ",
                text.as_str(),
            ),
        }
    }
}

} // verus!
