use sha2::{Digest, Sha256};
use wdht::conn::{
    forward_answer, match_answers, plan_forward, unknown_peers, ContactLost, ForwardStep, Incoming,
    InnerWrtcConnection,
};
use wdht::connector::{CreatingConnectionSender, Settled, WrtcConnector};
use wdht::config::RtcConfig;
use wdht::error::{HandshakeError, PeerMessageError, WrtcError, WrtcTransportError};
use wdht::handshake::{desc_to_fingerprint, handshake_check, handshake_request};
use wdht::events::{
    backoff_delay, next_wait, DisconnectReason, Reconnector, TransportEvent, NANOS_PER_SEC,
};
use wdht::id::Id;
use wdht::identity::{compute_identity, hash_key, Identity};
use wdht::protocol::{SessionDescription, WrtcMessage, WrtcPayload, WrtcRequest, WrtcResponse};
use wdht::registry::{Admission, Connections, Registration};
use wdht::transport::{RawResponse, Request, TransportError};

fn id(n: u8) -> Id {
    let mut bytes = [0u8; 20];
    bytes[19] = n;
    Id(bytes)
}

fn sd(text: &str) -> SessionDescription {
    SessionDescription { sdp: text.to_string() }
}

fn open(registry: &mut Connections, peer: Id) -> Registration {
    assert_ne!(registry.alloc_connection(), Admission::Denied);
    registry.after_handshake(Ok(peer), true)
}

#[test]
fn admission_keeps_to_the_limit() {
    let mut registry = Connections::new(id(1), Some(2));
    assert_eq!(registry.alloc_connection(), Admission::Admitted);
    assert_eq!(registry.alloc_connection(), Admission::Admitted);
    assert_eq!(registry.connection_count(), 2);
    assert_eq!(registry.alloc_connection(), Admission::Denied);
    assert_eq!(registry.connection_count(), 2);
    registry.release();
    assert_eq!(registry.connection_count(), 1);
    assert_eq!(registry.alloc_connection(), Admission::Admitted);
    let mut open_ended = Connections::new(id(1), None);
    for _ in 0..100 {
        assert_eq!(open_ended.alloc_connection(), Admission::Admitted);
    }
    assert_eq!(open_ended.connection_count(), 100);
}

#[test]
fn half_close_reuse() {
    let (b, c, d) = (id(2), id(3), id(4));
    let mut a = Connections::new(id(1), Some(2));
    assert_eq!(open(&mut a, b), Registration::Registered(b));
    assert_eq!(open(&mut a, c), Registration::Registered(c));
    assert_eq!(a.alloc_connection(), Admission::Denied);
    // the last contact of B that is not the routing table's is dropped
    let mut to_b = InnerWrtcConnection::new();
    assert_eq!(to_b.on_contact_lost(), ContactLost::HalfClose);
    assert!(to_b.this_half_closed());
    a.on_half_closed(b);
    // opening A-D evicts the half-closed B
    assert_eq!(a.alloc_connection(), Admission::Replaced(b));
    assert_eq!(a.connection_count(), 2);
    assert!(!a.is_connected(b));
    assert_eq!(a.after_handshake(Ok(d), true), Registration::Registered(d));
    assert!(a.is_connected(c));
    assert!(a.is_connected(d));
    assert_eq!(a.connected_count(), 2);
    assert_eq!(a.alloc_connection(), Admission::Denied);
}

#[test]
fn registry_settles_handshakes() {
    let mut registry = Connections::new(id(1), Some(4));
    assert_eq!(registry.alloc_connection(), Admission::Admitted);
    assert_eq!(
        registry.after_handshake(Err(HandshakeError::InvalidIdentity), true),
        Registration::Failed(HandshakeError::InvalidIdentity)
    );
    assert_eq!(registry.connection_count(), 0);
    assert_eq!(registry.alloc_connection(), Admission::Admitted);
    assert_eq!(registry.after_handshake(Ok(id(2)), false), Registration::AlreadyConnecting);
    assert_eq!(registry.connection_count(), 0);
    assert_eq!(open(&mut registry, id(2)), Registration::Registered(id(2)));
    assert_eq!(open(&mut registry, id(2)), Registration::IdConflict(id(2)));
    assert_eq!(registry.connection_count(), 2);
    registry.on_disconnect(id(2), true);
    assert!(!registry.is_connected(id(2)));
    assert_eq!(registry.connection_count(), 1);
    assert_eq!(registry.connected_count(), 1);
}

#[test]
fn registry_shutdown_drains() {
    let mut registry = Connections::new(id(1), None);
    open(&mut registry, id(2));
    open(&mut registry, id(3));
    registry.on_half_closed(id(3));
    assert_eq!(registry.shutdown(), vec![id(2), id(3)]);
    assert_eq!(registry.connection_count(), 0);
    assert_eq!(registry.alloc_connection(), Admission::Denied);
    assert_eq!(registry.connection_count(), 0);
    assert_eq!(registry.shutdown(), Vec::<Id>::new());
}

#[test]
fn same_id_conflict() {
    let (a, b) = (id(1), id(2));
    let mut at_a = WrtcConnector::new(a);
    let mut at_b = WrtcConnector::new(b);
    // both reach for each other
    let own_a = at_a.create_active(b).unwrap();
    let own_b = at_b.create_active(a).unwrap();
    assert_eq!(at_a.create_active(b), None);
    // the offers cross
    assert_eq!(at_a.create_passive(b), None);
    let taken = at_b.create_passive(a).unwrap();
    assert!(at_a.is_last(&own_a));
    assert!(!at_b.is_last(&own_b));
    assert!(at_b.is_last(&taken));
    // the registry of B settles the handshake of its own attempt as superseded
    let mut registry = Connections::new(b, None);
    assert_eq!(registry.alloc_connection(), Admission::Admitted);
    assert_eq!(registry.alloc_connection(), Admission::Admitted);
    assert_eq!(
        registry.after_handshake(Ok(a), at_b.is_last(&own_b)),
        Registration::AlreadyConnecting
    );
    assert_eq!(
        registry.after_handshake(Ok(a), at_b.is_last(&taken)),
        Registration::Registered(a)
    );
    assert_eq!(registry.connection_count(), 1);
    assert_eq!(at_b.send(own_b), Settled { announced: false, removed: false });
    assert_eq!(at_b.send(taken), Settled { announced: true, removed: true });
    assert!(!at_b.is_connecting(a));
    // a second handshake with the same peer is a conflict
    assert_eq!(registry.alloc_connection(), Admission::Admitted);
    assert_eq!(registry.after_handshake(Ok(a), true), Registration::IdConflict(a));
}

#[test]
fn connector_unknown_peer() {
    let mut connector = WrtcConnector::new(id(9));
    let sender = connector.create_unknown();
    assert_eq!(sender, CreatingConnectionSender { peer_id: None, id: 0, message_sent: false });
    assert!(connector.is_last(&sender));
    assert_eq!(connector.send(sender), Settled { announced: true, removed: false });
    // a passive attempt for a peer that is not being reached is recorded
    let passive = connector.create_passive(id(10)).unwrap();
    assert!(connector.is_connecting(id(10)));
    assert_eq!(passive.id, 0);
    assert_eq!(connector.create_passive(id(10)), None);
    assert_eq!(connector.create_passive(id(3)).unwrap().id, 1);
}

#[test]
fn connection_numbers_requests() {
    let mut conn = InnerWrtcConnection::new();
    let first = conn.send_request(WrtcRequest::HalfClose).unwrap();
    let second = conn.wrap_message(WrtcRequest::HalfClose);
    assert_eq!(first, WrtcMessage { id: 0, payload: WrtcPayload::Req(WrtcRequest::HalfClose) });
    assert_eq!(second.id, 1);
    let registry = Connections::new(id(1), None);
    let answer = WrtcMessage { id: 0, payload: WrtcPayload::Res(WrtcResponse::Ans(RawResponse::Done)) };
    assert_eq!(
        conn.process_message(answer, &registry),
        Ok(Incoming::Deliver(0, WrtcResponse::Ans(RawResponse::Done)))
    );
    let again = WrtcMessage { id: 0, payload: WrtcPayload::Res(WrtcResponse::Ans(RawResponse::Done)) };
    assert_eq!(conn.process_message(again, &registry), Err(PeerMessageError::UnknownAnswerId));
    let third = conn.send_request(WrtcRequest::HalfClose).unwrap();
    assert_eq!(third.id, 2);
    assert!(conn.send_failed(2));
    assert!(!conn.send_failed(2));
    let fourth = conn.send_request(WrtcRequest::HalfClose).unwrap();
    assert_eq!(conn.shutdown_local(), vec![fourth.id]);
    assert_eq!(conn.send_request(WrtcRequest::HalfClose), Err(TransportError::ConnectionLost));
}

#[test]
fn connection_dispatches_requests() {
    let mut registry = Connections::new(id(1), None);
    open(&mut registry, id(2));
    let mut conn = InnerWrtcConnection::new();
    let ask = WrtcMessage { id: 7, payload: WrtcPayload::Req(WrtcRequest::Req(Request::FindNodes(id(5)))) };
    assert_eq!(
        conn.process_message(ask, &registry),
        Ok(Incoming::Answer(7, Request::FindNodes(id(5))))
    );
    let known = WrtcMessage { id: 8, payload: WrtcPayload::Req(WrtcRequest::TryOffer(id(2), sd("o"))) };
    assert_eq!(
        conn.process_message(known, &registry),
        Ok(Incoming::Reply(8, WrtcResponse::OkAnswer(Err("already_connected".to_string()))))
    );
    let new = WrtcMessage { id: 9, payload: WrtcPayload::Req(WrtcRequest::TryOffer(id(3), sd("o"))) };
    assert_eq!(conn.process_message(new, &registry), Ok(Incoming::Accept(9, id(3), sd("o"))));
    let offers = vec![(id(2), sd("x")), (id(4), sd("y"))];
    let forward = WrtcMessage { id: 10, payload: WrtcPayload::Req(WrtcRequest::ForwardOffer(offers.clone())) };
    assert_eq!(conn.process_message(forward, &registry), Ok(Incoming::Forward(10, offers.clone())));
    assert_eq!(
        plan_forward(&registry, id(6), offers),
        vec![
            ForwardStep::Send(id(2), WrtcRequest::TryOffer(id(6), sd("x"))),
            ForwardStep::NotFound,
        ]
    );
    assert_eq!(unknown_peers(&registry, &vec![id(2), id(3), id(4)]), vec![id(3), id(4)]);
}

#[test]
fn half_close_from_both_ends_shuts_down() {
    let registry = Connections::new(id(1), None);
    let half_close = || WrtcMessage { id: 1, payload: WrtcPayload::Req(WrtcRequest::HalfClose) };
    // they first
    let mut conn = InnerWrtcConnection::new();
    assert_eq!(conn.process_message(half_close(), &registry), Ok(Incoming::Noted));
    assert_eq!(conn.on_contact_lost(), ContactLost::Shutdown);
    // we first
    let mut conn = InnerWrtcConnection::new();
    assert_eq!(conn.on_contact_lost(), ContactLost::HalfClose);
    assert_eq!(
        conn.process_message(half_close(), &registry),
        Ok(Incoming::Shutdown(DisconnectReason::HalfCloseBoth))
    );
    // a connection of the routing table stays
    let mut conn = InnerWrtcConnection::new();
    conn.set_dont_cleanup(true);
    assert_eq!(conn.on_contact_lost(), ContactLost::Keep);
    assert!(!conn.this_half_closed());
}

#[test]
fn forwarded_answers_are_matched_in_order() {
    assert_eq!(forward_answer(Ok(WrtcResponse::OkAnswer(Ok(sd("a"))))), Ok(sd("a")));
    assert_eq!(
        forward_answer(Ok(WrtcResponse::Ans(RawResponse::Done))),
        Err("peer_error".to_string())
    );
    assert_eq!(forward_answer(Err(TransportError::ConnectionLost)), Err("not_found".to_string()));
    assert_eq!(
        match_answers(3, vec![Ok(sd("a")), Err("no".to_string())]),
        vec![
            Ok(sd("a")),
            Err("Client responded with error: no".to_string()),
            Err("Client returned no forwarded response for id".to_string()),
        ]
    );
    assert_eq!(match_answers(1, vec![Ok(sd("a")), Ok(sd("b"))]), vec![Ok(sd("a"))]);
}

#[test]
fn reconnector_retries_lost_bootstrap_peers() {
    let mut reconnector = Reconnector::new();
    reconnector.on_connected(id(2), 0);
    reconnector.on_connected(id(3), 1);
    reconnector.on_connected(id(2), 4);
    assert_eq!(reconnector.on_disconnect(id(2), DisconnectReason::ConnectionLost), Some(4));
    assert_eq!(reconnector.on_disconnect(id(3), DisconnectReason::SendFail), Some(1));
    assert_eq!(reconnector.on_disconnect(id(3), DisconnectReason::TimeoutExpired), Some(1));
    assert_eq!(reconnector.on_disconnect(id(3), DisconnectReason::HalfCloseBoth), None);
    assert_eq!(reconnector.on_disconnect(id(3), DisconnectReason::ShuttingDown), None);
    assert_eq!(reconnector.on_disconnect(id(9), DisconnectReason::ConnectionLost), None);
    assert_eq!(
        reconnector.on_event(TransportEvent::Disconnect(id(2), DisconnectReason::ConnectionLost)),
        Some(4)
    );
    assert_eq!(reconnector.on_event(TransportEvent::Connect(id(2))), None);
    assert_eq!(reconnector.on_event(TransportEvent::Shutdown), None);
    assert_eq!(DisconnectReason::HalfCloseReplace.message(), "half closen replaced");
    assert_eq!(DisconnectReason::ShuttingDown.message(), "DHT is shutting down");
}

#[test]
fn backoff_doubles_to_five_minutes() {
    assert_eq!(next_wait(1), 2);
    assert_eq!(next_wait(2), 4);
    assert_eq!(next_wait(128), 256);
    assert_eq!(next_wait(149), 298);
    assert_eq!(next_wait(150), 300);
    assert_eq!(next_wait(256), 300);
    assert_eq!(next_wait(u64::MAX), 300);
    for _ in 0..20 {
        let (secs, nanos) = backoff_delay(8);
        assert_eq!(secs, 16);
        assert!(nanos < NANOS_PER_SEC);
    }
}

#[test]
fn identifiers_are_truncated_digests() {
    let key = [4u8; 65];
    let mut hasher = Sha256::new();
    hasher.update(b"wdht.transport.identity");
    hasher.update(key);
    let digest = hasher.finalize();
    assert_eq!(&compute_identity(&key).0[..], &digest[..20]);
    let mut hasher = Sha256::new();
    hasher.update(b"wdht.topic");
    hasher.update(b"weather");
    let digest = hasher.finalize();
    assert_eq!(&hash_key("weather").unwrap().0[..], &digest[..20]);
    assert_eq!(hash_key(""), None);
}

#[test]
fn identity_proofs_are_checked() {
    let alice = Identity::generate();
    let bob = Identity::generate();
    assert_eq!(alice.export_key().len(), 65);
    assert_eq!(alice.generate_id(), compute_identity(alice.export_key()));
    let fingerprint = b"AA:BB:CC";
    let proof = alice.create_proof(fingerprint).unwrap();
    assert_eq!(
        bob.check_identity_proof(alice.export_key(), fingerprint, &proof),
        Ok(alice.generate_id())
    );
    assert_eq!(bob.check_identity_proof(alice.export_key(), b"AA:BB:CD", &proof), Err(()));
    assert_eq!(bob.check_identity_proof(bob.export_key(), fingerprint, &proof), Err(()));
    assert_eq!(bob.check_identity_proof(&[1, 2, 3], fingerprint, &proof), Err(()));
    assert_eq!(bob.check_identity_proof(alice.export_key(), fingerprint, &[0u8; 5]), Err(()));
    assert_eq!(Identity::identity_if(false, alice.export_key()), Err(()));
    assert_eq!(Identity::identity_if(true, alice.export_key()), Ok(alice.generate_id()));
}

#[test]
fn bootstrap_reconnect() {
    let server = id(9);
    let mut registry = Connections::new(id(1), None);
    let mut reconnector = Reconnector::new();
    // the client connects to the server at the first address
    assert_eq!(open(&mut registry, server), Registration::Registered(server));
    reconnector.on_connected(server, 0);
    assert_eq!(registry.connection_count(), 1);
    // the server goes away
    registry.on_disconnect(server, true);
    assert_eq!(registry.connected_count(), 0);
    let retry = reconnector.on_event(TransportEvent::Disconnect(server, DisconnectReason::ConnectionLost));
    assert_eq!(retry, Some(0));
    // a first attempt fails, and the client waits before the next
    assert_eq!(registry.alloc_connection(), Admission::Admitted);
    assert_eq!(
        registry.after_handshake(Err(HandshakeError::ConnectionLost), true),
        Registration::Failed(HandshakeError::ConnectionLost)
    );
    let (wait, _) = backoff_delay(1);
    assert_eq!(wait, 2);
    // the server is back at the same address
    assert_eq!(open(&mut registry, server), Registration::Registered(server));
    reconnector.on_connected(server, 0);
    assert_eq!(registry.connection_count(), 1);
}

#[test]
fn fingerprints_are_read_from_descriptions() {
    let sdp = b"v=0\r\na=setup:actpass\r\na=fingerprint:sha-256 AB:CD:EF\r\na=mid:0\r\n";
    assert_eq!(desc_to_fingerprint(sdp), Some(b"AB:CD:EF".to_vec()));
    assert_eq!(desc_to_fingerprint(b"v=0\r\na=fingerprint:sha-256 AB"), Some(b"AB".to_vec()));
    assert_eq!(desc_to_fingerprint(b"v=0\r\na=fingerprint:ABCD\r\n"), Some(b"ABCD".to_vec()));
    assert_eq!(desc_to_fingerprint(b"\na=fingerprint:"), Some(Vec::new()));
    assert_eq!(desc_to_fingerprint(b"a=fingerprint:sha-256 AB\r\n"), None);
    assert_eq!(desc_to_fingerprint(b""), None);
}

#[test]
fn handshake_binds_the_key_to_the_channel() {
    let alice = Identity::generate();
    let bob = Identity::generate();
    let alice_sdp = b"v=0\r\na=fingerprint:sha-256 11:22\r\n";
    let other_sdp = b"v=0\r\na=fingerprint:sha-256 11:23\r\n";
    let request = handshake_request(&alice, alice_sdp).unwrap();
    assert_eq!(request.identity, alice.export_key());
    assert_eq!(handshake_check(&bob, &request, alice_sdp), Ok(alice.generate_id()));
    assert_eq!(handshake_check(&bob, &request, other_sdp), Err(HandshakeError::InvalidIdentity));
    let missing = HandshakeError::Wrtc(WrtcError::RuntimeError("Cannot find fingerprint".to_string()));
    assert_eq!(handshake_check(&bob, &request, b"v=0"), Err(missing.clone()));
    assert_eq!(handshake_request(&alice, b"v=0"), Err(missing));
}

#[test]
fn errors_have_messages() {
    assert_eq!(WrtcError::SignalingFailed.message(), "Singaling failed");
    assert_eq!(
        WrtcError::DataChannelError("closed".to_string()).message(),
        "DataChannel error closed"
    );
    assert_eq!(
        HandshakeError::IdConflict(id(1)).message(),
        "A channel with the same ID was already open"
    );
    assert_eq!(
        WrtcTransportError::Handshake(HandshakeError::InvalidIdentity).message(),
        "Error occurred during handshake: Provided identity is invalid"
    );
    assert_eq!(
        WrtcTransportError::Transport(TransportError::UnknownError("x".to_string())).message(),
        "Transport error: Unknown transport error x"
    );
    assert_eq!(PeerMessageError::UnknownAnswerId.message(), "Unknown answer id");
    assert_eq!(
        PeerMessageError::TransportError(WrtcTransportError::ConnectionLimitReached).message(),
        "Transport error: Connection limit reached"
    );
    assert_eq!(TransportError::ContactLost.message(), "Cannot find client address");
}

#[test]
fn channel_settings_keep_the_servers() {
    let servers = vec!["stun:stun.example.org:3478".to_string(), "stun:other".to_string()];
    let config = RtcConfig::new(&servers);
    assert_eq!(config.ice_servers(), &servers);
}

#[test]
fn contacts_are_pieced_together_in_order() {
    let known = vec![Some(id(1)), None, Some(id(3)), None, None];
    let reached = vec![Some(id(2)), None];
    assert_eq!(wdht::conn::piece_together(known, reached), vec![id(1), id(2), id(3)]);
}

#[test]
fn proofs_are_determined_by_key_and_message() {
    let alice = Identity::generate();
    let bob = Identity::generate();
    let first = alice.create_proof(b"AA:BB").unwrap();
    assert_eq!(alice.create_proof(b"AA:BB").unwrap(), first);
    assert_ne!(alice.create_proof(b"AA:BC").unwrap(), first);
    assert_ne!(bob.create_proof(b"AA:BB").unwrap(), first);
    assert_ne!(first, b"AA:BB".to_vec());
    assert_ne!(alice.export_key(), bob.export_key());
    let request = handshake_request(&alice, b"v=0\r\na=fingerprint:sha-256 AA:BB\r\n").unwrap();
    assert_eq!(request.proof, first);
}
