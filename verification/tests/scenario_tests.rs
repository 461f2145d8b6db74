use netchan::channel::REORDER_WINDOW;
use netchan::codec::{encode_message, DecodeError, Message};
use netchan::wire::{encode_frame, Frame, CHANNEL_RELIABLE};
use netchan::endpoint::{
    parse_role, ClientEndpoint, DropReason, Role, ServerEndpoint, TickTimer,
};
use netchan::handshake::{
    AuthMode, ClientAuthState, ClientAuthenticator, ServerAuthenticator,
    REASON_MODE_UNSUPPORTED, REASON_PROTOCOL_MISMATCH,
};
use netchan::registry::{PeerAddr, SessionState};

const PROTOCOL: u32 = 0;
const PING_INTERVAL: u64 = 5;
const RETRANSMIT_AFTER: u64 = 10;

fn peer() -> PeerAddr {
    PeerAddr { ip: 0x7F00_0001, port: 34567 }
}

/// Runs the handshake to completion and returns the connected pair.
fn connected_pair(client_id: u64) -> (ClientEndpoint, ServerEndpoint) {
    let mut client = ClientEndpoint::new(PROTOCOL, client_id, PING_INTERVAL, RETRANSMIT_AFTER);
    let mut server = ServerEndpoint::new(PROTOCOL, AuthMode::Unsecure, RETRANSMIT_AFTER);
    let request = client.connect_datagram();
    let ev = server.handle_datagram(peer(), &request, 0);
    assert_eq!(ev.accepted, Some(client_id));
    assert_eq!(ev.dropped, None);
    assert_eq!(ev.outgoing.len(), 1);
    for d in &ev.outgoing {
        let e = client.handle_datagram(d, 0);
        assert!(e.pongs.is_empty());
    }
    assert_eq!(client.auth.state, ClientAuthState::Connected);
    assert_eq!(client.auth.assigned_id, Some(client_id));
    (client, server)
}

/// Scenario: the client pings once, the server answers within the same
/// tick, and the client's next drain yields exactly that pong.
#[test]
fn ping_is_answered_with_its_pong() {
    let (mut client, mut server) = connected_pair(7);

    let out = client.tick(PING_INTERVAL, 0);
    assert_eq!(out.len(), 1);

    let ev = server.handle_datagram(peer(), &out[0], 0);
    assert_eq!(ev.dropped, None);
    // The pong and the acknowledgement of the ping.
    assert_eq!(ev.outgoing.len(), 2);

    let mut pongs: Vec<u32> = Vec::new();
    for d in &ev.outgoing {
        let e = client.handle_datagram(d, 0);
        assert_eq!(e.dropped, None);
        pongs.extend(e.pongs);
    }
    assert_eq!(pongs, vec![0]);
}

/// Scenario: a ping's frame is lost once; after one retransmission
/// interval the server still receives exactly one copy and replies with
/// exactly one pong.
#[test]
fn dropped_ping_is_retransmitted_and_answered_once() {
    let (mut client, mut server) = connected_pair(3);
    let mut now: u64 = 0;

    // Five pings, counters 0 through 4, all delivered and acknowledged.
    for expected in 0..5u32 {
        now += PING_INTERVAL;
        let out = client.tick(PING_INTERVAL, now);
        assert_eq!(out.len(), 1);
        let ev = server.handle_datagram(peer(), &out[0], now);
        let mut pongs: Vec<u32> = Vec::new();
        for d in &ev.outgoing {
            let e = client.handle_datagram(d, now);
            pongs.extend(e.pongs);
            // Pass the client's acknowledgement of the pong back.
            for a in &e.outgoing {
                server.handle_datagram(peer(), a, now);
            }
        }
        assert_eq!(pongs, vec![expected]);
    }

    // The sixth ping carries counter 5. Its datagram is lost.
    now += PING_INTERVAL;
    let lost = client.tick(PING_INTERVAL, now);
    assert_eq!(lost.len(), 1);

    // One retransmission interval later the maintenance step resends it.
    now += RETRANSMIT_AFTER;
    let resent = client.tick(0, now);
    assert_eq!(resent.len(), 1);

    let ev = server.handle_datagram(peer(), &resent[0], now);
    assert_eq!(ev.dropped, None);
    let mut pongs: Vec<u32> = Vec::new();
    for d in &ev.outgoing {
        let e = client.handle_datagram(d, now);
        pongs.extend(e.pongs);
    }
    assert_eq!(pongs, vec![5]);

    // A second copy of the same frame is suppressed as a duplicate: the
    // server acknowledges again but delivers nothing and sends no pong.
    let ev = server.handle_datagram(peer(), &resent[0], now);
    assert_eq!(ev.dropped, None);
    assert_eq!(ev.outgoing.len(), 1);
    let e = client.handle_datagram(&ev.outgoing[0], now);
    assert!(e.pongs.is_empty());
}

/// Scenario: an unrecognized role argument is refused, so startup can
/// abort before any socket is bound.
#[test]
fn unrecognized_role_is_refused() {
    assert_eq!(parse_role(&String::from("client")), Some(Role::Client));
    assert_eq!(parse_role(&String::from("server")), Some(Role::Server));
    assert_eq!(parse_role(&String::from("observer")), None);
    assert_eq!(parse_role(&String::from("")), None);
    assert_eq!(parse_role(&String::from("Client")), None);
}

/// Scenario: a connect request with a mismatched protocol id is rejected
/// and the client never observes a connected state.
#[test]
fn mismatched_protocol_is_rejected() {
    let mut client = ClientEndpoint::new(1, 9, PING_INTERVAL, RETRANSMIT_AFTER);
    let mut server = ServerEndpoint::new(PROTOCOL, AuthMode::Unsecure, RETRANSMIT_AFTER);

    let request = client.connect_datagram();
    assert_eq!(client.auth.state, ClientAuthState::Authenticating);

    let ev = server.handle_datagram(peer(), &request, 0);
    assert_eq!(ev.accepted, None);
    assert_eq!(
        ev.dropped,
        Some(DropReason::HandshakeRefused(REASON_PROTOCOL_MISMATCH))
    );
    assert_eq!(ev.outgoing.len(), 1);
    assert_eq!(server.registry.len(), 0);

    let e = client.handle_datagram(&ev.outgoing[0], 0);
    assert_eq!(e.dropped, None);
    assert_eq!(client.auth.state, ClientAuthState::Rejected);
}

#[test]
fn secure_mode_refuses_until_a_validator_exists() {
    let auth = ServerAuthenticator::new(PROTOCOL, AuthMode::Secure);
    assert_eq!(auth.handle_connect_request(PROTOCOL, 1), Err(REASON_MODE_UNSUPPORTED));
    let auth = ServerAuthenticator::new(PROTOCOL, AuthMode::Unsecure);
    assert_eq!(auth.handle_connect_request(PROTOCOL, 1), Ok(1));
}

#[test]
fn client_handshake_times_out_to_rejected() {
    let mut auth = ClientAuthenticator::new(PROTOCOL, 4);
    auth.connect_request();
    assert_eq!(auth.state, ClientAuthState::Authenticating);
    auth.on_timeout();
    assert_eq!(auth.state, ClientAuthState::Rejected);
    auth.disconnect();
    assert_eq!(auth.state, ClientAuthState::Disconnected);
}

#[test]
fn server_registers_each_client_once_and_disconnect_discards_it() {
    let (_, mut server) = connected_pair(11);
    assert_eq!(server.registry.len(), 1);
    let ids = server.registry.connected_ids();
    assert_eq!(ids, vec![11]);
    assert_eq!(server.registry.sessions[0].state, SessionState::Connected);

    // A repeated connect request reuses the session instead of adding one.
    let mut again = ClientEndpoint::new(PROTOCOL, 11, PING_INTERVAL, RETRANSMIT_AFTER);
    let request = again.connect_datagram();
    let ev = server.handle_datagram(peer(), &request, 0);
    assert_eq!(ev.accepted, None);
    assert_eq!(ev.outgoing.len(), 1);
    assert_eq!(server.registry.len(), 1);

    server.disconnect_client(11);
    assert_eq!(server.registry.len(), 0);
}

#[test]
fn server_tick_retransmits_unacknowledged_pongs() {
    let (mut client, mut server) = connected_pair(2);
    let out = client.tick(PING_INTERVAL, 0);
    // The server's pong goes unacknowledged: drop the replies.
    let ev = server.handle_datagram(peer(), &out[0], 0);
    assert_eq!(ev.outgoing.len(), 2);

    // Nothing is due before the interval has fully elapsed.
    assert_eq!(server.tick(RETRANSMIT_AFTER - 1).len(), 0);
    let due = server.tick(RETRANSMIT_AFTER);
    assert_eq!(due.len(), 1);
    assert_eq!(due[0].peer, peer());

    // The retransmitted pong reaches the client exactly once.
    let e = client.handle_datagram(&due[0].datagram, RETRANSMIT_AFTER);
    assert_eq!(e.pongs, vec![0]);
}

#[test]
fn datagrams_for_unknown_peers_and_channels_are_reported() {
    let (mut client, mut server) = connected_pair(8);
    let out = client.tick(PING_INTERVAL, 0);
    let stranger = PeerAddr { ip: 0x7F00_0001, port: 1 };
    let ev = server.handle_datagram(stranger, &out[0], 0);
    assert_eq!(ev.dropped, Some(DropReason::UnknownPeer));
    assert_eq!(ev.outgoing.len(), 0);

    let ev = server.handle_datagram(peer(), &vec![9, 0, 0, 1], 0);
    assert_eq!(ev.dropped, Some(DropReason::UnknownChannel(9)));

    let ev = server.handle_datagram(peer(), &vec![1], 0);
    assert!(matches!(ev.dropped, Some(DropReason::Malformed(_))));
}

/// A malformed payload inside a validly sequenced frame is reported,
/// never unwinds past the call, and later frames still arrive in order.
#[test]
fn malformed_payload_is_reported_and_later_messages_still_flow() {
    let (mut client, _server) = connected_pair(6);

    // The server-to-client stream starts at sequence number zero; this
    // frame is validly sequenced but its payload encodes no message.
    let garbage = encode_frame(&Frame {
        channel_id: CHANNEL_RELIABLE,
        sequence: 0,
        payload: vec![9, 9],
    });
    let e = client.handle_datagram(&garbage, 0);
    assert!(e.pongs.is_empty());
    assert_eq!(e.dropped, None);
    assert_eq!(e.malformed, vec![DecodeError::UnknownTag]);
    // The frame consumed its sequence number, so it is acknowledged.
    assert_eq!(e.outgoing.len(), 1);

    // The next message in the stream is unaffected.
    let pong = encode_frame(&Frame {
        channel_id: CHANNEL_RELIABLE,
        sequence: 1,
        payload: encode_message(&Message::Pong(4)),
    });
    let e = client.handle_datagram(&pong, 0);
    assert_eq!(e.pongs, vec![4]);
    assert!(e.malformed.is_empty());
    assert_eq!(e.dropped, None);
}

/// The server reports a malformed payload the same way, answers no pong
/// for it, and keeps answering the valid pings around it.
#[test]
fn server_reports_malformed_payloads_and_answers_valid_pings() {
    let (_client, mut server) = connected_pair(12);

    let garbage = encode_frame(&Frame {
        channel_id: CHANNEL_RELIABLE,
        sequence: 0,
        payload: vec![7],
    });
    let ev = server.handle_datagram(peer(), &garbage, 0);
    assert_eq!(ev.dropped, None);
    assert_eq!(ev.malformed, vec![DecodeError::UnknownTag]);
    // Only the acknowledgement goes back: no pong for a non-message.
    assert_eq!(ev.outgoing.len(), 1);

    let ping = encode_frame(&Frame {
        channel_id: CHANNEL_RELIABLE,
        sequence: 1,
        payload: encode_message(&Message::Ping(8)),
    });
    let ev = server.handle_datagram(peer(), &ping, 0);
    assert!(ev.malformed.is_empty());
    assert_eq!(ev.dropped, None);
    // The pong and the acknowledgement.
    assert_eq!(ev.outgoing.len(), 2);
}

#[test]
fn reorder_window_spans_sixty_four_sequence_numbers() {
    assert_eq!(REORDER_WINDOW, 64);
}

#[test]
fn timer_fires_once_per_full_interval_and_keeps_the_excess() {
    let mut t = TickTimer::new(5);
    assert!(!t.advance(3));
    assert_eq!(t.accumulated, 3);
    assert!(t.advance(2));
    assert_eq!(t.accumulated, 0);
    assert!(t.advance(12));
    assert_eq!(t.accumulated, 2);
}
