//! The application loop's decision logic for each endpoint.
//!
//! Once per tick the surrounding process drains incoming datagrams into
//! `handle_datagram`, then calls `tick` with the elapsed time and sends
//! every datagram both hand back: receive, react, then send, so a ping
//! received in a tick is answered within that same tick. The process owns
//! the sockets and the clock; everything here is pure state.

use crate::channel::{
    payloads_model, spec_acknowledge, spec_due_frames, spec_ingest, spec_restamp_pending,
    wire_sequence, IngestVerdict, PendingModel, ReceiveChannel, SendChannel, SendModel,
    UnreliableChannel,
};
use crate::codec::{
    decode_control, decode_message, encode_control, encode_message, spec_decode_control,
    spec_decode_message, spec_encode_control, spec_encode_message, ControlMessage, DecodeError,
    Message,
};
use crate::handshake::{
    spec_client_on_response, spec_handle_connect, ClientAuthenticator, ServerAuthenticator,
};
use crate::registry::{PeerAddr, Session, SessionRegistry, SessionState};
use crate::wire::{
    decode_frame, encode_frame, spec_decode_frame, spec_encode_frame, Frame, FrameModel,
    CHANNEL_CONTROL, CHANNEL_RELIABLE, CHANNEL_UNRELIABLE,
};
use vstd::prelude::*;

verus! {

/// Which side of the session this process runs.
#[derive(Clone, Copy, Debug, PartialEq, Eq, Structural)]
pub enum Role {
    Client,
    Server,
}

/// Reads the process's role argument. Anything but the two known role
/// names is unrecognized and must abort startup before any socket is
/// bound.
pub fn parse_role(arg: &String) -> (r: Option<Role>)
    ensures
        r == (if arg@ == "client"@ {
            Some(Role::Client)
        } else if arg@ == "server"@ {
            Some(Role::Server)
        } else {
            None::<Role>
        }),
{
    let client: String = "client".to_owned();
    let server: String = "server".to_owned();
    if arg.eq(&client) {
        Some(Role::Client)
    } else if arg.eq(&server) {
        Some(Role::Server)
    } else {
        None
    }
}

/// A repeating timer driven by elapsed time: it fires when a full
/// interval has accumulated, carrying any excess into the next period,
/// and fires at most once per advance.
pub struct TickTimer {
    pub accumulated: u64,
    pub interval: u64,
}

impl TickTimer {
    /// The interval is positive.
    pub open spec fn wf(self) -> bool {
        1 <= self.interval
    }

    /// A fresh timer with nothing accumulated.
    pub fn new(interval: u64) -> (t: TickTimer)
        requires
            interval >= 1,
        ensures
            t.wf(),
            t.interval == interval,
            t.accumulated == 0,
    {
        TickTimer { accumulated: 0, interval }
    }

    /// Accumulates `elapsed` time units and reports whether the timer
    /// fired.
    pub fn advance(&mut self, elapsed: u64) -> (fired: bool)
        requires
            old(self).wf(),
            old(self).accumulated + elapsed <= u64::MAX,
        ensures
            final(self).wf(),
            final(self).interval == old(self).interval,
            fired == (old(self).accumulated + elapsed >= old(self).interval),
            final(self).accumulated == if fired {
                (old(self).accumulated + elapsed) % (old(self).interval as int)
            } else {
                old(self).accumulated + elapsed
            },
    {
        let total: u64 = self.accumulated + elapsed;
        if total >= self.interval {
            self.accumulated = total % self.interval;
            true
        } else {
            self.accumulated = total;
            false
        }
    }
}

/// Why an incoming datagram had no effect: the diagnostic signal that
/// accompanies every dropped frame or refused handshake.
#[derive(Clone, Copy, Debug, PartialEq, Eq, Structural)]
pub enum DropReason {
    /// The datagram or its payload decodes to nothing.
    Malformed(DecodeError),
    /// The frame names a channel this endpoint does not run.
    UnknownChannel(u8),
    /// The frame's sequence number lies outside the acceptable window.
    OutsideWindow,
    /// The frame came from a peer with no registered session.
    UnknownPeer,
    /// A control message that this endpoint never expects.
    Unexpected,
    /// The handshake was refused, with the reason code sent back.
    HandshakeRefused(u8),
}

/// The counters of the pong messages among delivered payloads, in
/// delivery order.
pub open spec fn spec_payload_pongs(delivered: Seq<Seq<u8>>) -> Seq<u32>
    decreases delivered.len(),
{
    if delivered.len() == 0 {
        Seq::<u32>::empty()
    } else {
        let rest = spec_payload_pongs(delivered.drop_last());
        match spec_decode_message(delivered.last()) {
            Ok(Message::Pong(c)) => rest.push(c),
            _ => rest,
        }
    }
}

/// The decode errors of the delivered payloads that encode no message,
/// in delivery order: the complement of the message filters below.
///
/// A malformed payload inside a well-formed reliable frame is discovered
/// only after the frame was validly sequenced, so the receive window has
/// already advanced past it — undoing that would tear a gap into the
/// delivered stream. The payload is therefore dropped at the message
/// layer, the channel itself is unaffected, and this signal is the
/// diagnostic owed for the drop; the error never unwinds past the call.
pub open spec fn spec_payload_errors(delivered: Seq<Seq<u8>>) -> Seq<DecodeError>
    decreases delivered.len(),
{
    if delivered.len() == 0 {
        Seq::<DecodeError>::empty()
    } else {
        let rest = spec_payload_errors(delivered.drop_last());
        match spec_decode_message(delivered.last()) {
            Ok(_) => rest,
            Err(e) => rest.push(e),
        }
    }
}

/// The send channel and the reply datagrams after answering every ping
/// among the delivered payloads, in delivery order: each `Ping(x)` whose
/// reply still fits the send index space enqueues `Pong(x)` and emits its
/// frame's datagram.
pub open spec fn spec_pong_step(m: SendModel, delivered: Seq<Seq<u8>>, now: u64) -> (
    SendModel,
    Seq<Seq<u8>>,
)
    decreases delivered.len(),
{
    if delivered.len() == 0 {
        (m, Seq::<Seq<u8>>::empty())
    } else {
        let prior = spec_pong_step(m, delivered.drop_last(), now);
        match spec_decode_message(delivered.last()) {
            Ok(Message::Ping(x)) => {
                if prior.0.base_index + prior.0.pending.len() < u64::MAX {
                    let payload = spec_encode_message(Message::Pong(x));
                    let sequence = wire_sequence(
                        prior.0.base_index + prior.0.pending.len(),
                    ) as u16;
                    let f = FrameModel { channel_id: prior.0.channel_id, sequence, payload };
                    (
                        SendModel {
                            pending: prior.0.pending.push(
                                PendingModel { sequence, payload, last_send: now },
                            ),
                            ..prior.0
                        },
                        prior.1.push(spec_encode_frame(f)),
                    )
                } else {
                    prior
                }
            },
            _ => prior,
        }
    }
}

/// The counters of the ping messages among delivered payloads, in
/// delivery order.
pub open spec fn spec_payload_pings(delivered: Seq<Seq<u8>>) -> Seq<u32>
    decreases delivered.len(),
{
    if delivered.len() == 0 {
        Seq::<u32>::empty()
    } else {
        let rest = spec_payload_pings(delivered.drop_last());
        match spec_decode_message(delivered.last()) {
            Ok(Message::Ping(x)) => rest.push(x),
            _ => rest,
        }
    }
}

/// Pings pair with pongs. While the send index space has room, answering
/// a delivered stream enqueues exactly one `Pong(x)` for each delivered
/// `Ping(x)`, in delivery order, and puts exactly those replies on the
/// wire, each under the next send index in turn.
#[verifier::rlimit(100)]
pub proof fn theorem_each_ping_gets_one_pong(m: SendModel, delivered: Seq<Seq<u8>>, now: u64)
    requires
        m.base_index + m.pending.len() + delivered.len() <= u64::MAX,
    ensures
        ({
            let r = spec_pong_step(m, delivered, now);
            let pings = spec_payload_pings(delivered);
            &&& r.0.pending.len() == m.pending.len() + pings.len()
            &&& (forall|i: int|
                0 <= i < m.pending.len() ==> r.0.pending[i] == m.pending[i])
            &&& (forall|i: int|
                0 <= i < pings.len() ==> (#[trigger] r.0.pending[m.pending.len() + i]).payload
                    == spec_encode_message(Message::Pong(pings[i])))
            &&& r.1.len() == pings.len()
            &&& (forall|i: int|
                0 <= i < pings.len() ==> #[trigger] r.1[i] == spec_encode_frame(
                    FrameModel {
                        channel_id: m.channel_id,
                        sequence: wire_sequence(m.base_index + m.pending.len() + i) as u16,
                        payload: spec_encode_message(Message::Pong(pings[i])),
                    },
                ))
            &&& pings.len() <= delivered.len()
        }),
    decreases delivered.len(),
{
    if delivered.len() > 0 {
        theorem_each_ping_gets_one_pong(m, delivered.drop_last(), now);
        lemma_pong_step_preserves(m, delivered.drop_last(), now);
        let prior = spec_pong_step(m, delivered.drop_last(), now);
        let r = spec_pong_step(m, delivered, now);
        let pings_prior = spec_payload_pings(delivered.drop_last());
        let pings = spec_payload_pings(delivered);
        match spec_decode_message(delivered.last()) {
            Ok(Message::Ping(x)) => {
                assert(prior.0.pending.len() == m.pending.len() + pings_prior.len());
                assert(prior.0.base_index + prior.0.pending.len() < u64::MAX);
                assert(pings == pings_prior.push(x));
                assert(r.0.pending == prior.0.pending.push(
                    PendingModel {
                        sequence: wire_sequence(
                            prior.0.base_index + prior.0.pending.len(),
                        ) as u16,
                        payload: spec_encode_message(Message::Pong(x)),
                        last_send: now,
                    },
                ));
                assert(r.1 == prior.1.push(
                    spec_encode_frame(
                        FrameModel {
                            channel_id: prior.0.channel_id,
                            sequence: wire_sequence(
                                prior.0.base_index + prior.0.pending.len(),
                            ) as u16,
                            payload: spec_encode_message(Message::Pong(x)),
                        },
                    ),
                ));
                assert forall|i: int|
                    0 <= i < pings.len() implies #[trigger] r.1[i] == spec_encode_frame(
                    FrameModel {
                        channel_id: m.channel_id,
                        sequence: wire_sequence(m.base_index + m.pending.len() + i) as u16,
                        payload: spec_encode_message(Message::Pong(pings[i])),
                    },
                ) by {
                    if i < pings_prior.len() {
                        assert(r.1[i] == prior.1[i]);
                        assert(pings[i] == pings_prior[i]);
                    }
                }
            },
            _ => {
                assert(pings == pings_prior);
                assert(r == prior);
            },
        }
    }
}

/// Answering pings never touches the channel identity, the base index or
/// the retransmission interval, and never drops pending frames.
pub proof fn lemma_pong_step_preserves(m: SendModel, delivered: Seq<Seq<u8>>, now: u64)
    ensures
        ({
            let r = spec_pong_step(m, delivered, now);
            &&& r.0.channel_id == m.channel_id
            &&& r.0.base_index == m.base_index
            &&& r.0.retransmit_after == m.retransmit_after
            &&& m.pending.len() <= r.0.pending.len()
        }),
    decreases delivered.len(),
{
    if delivered.len() > 0 {
        lemma_pong_step_preserves(m, delivered.drop_last(), now);
    }
}

/// The encodings of a list of frames, in order.
pub open spec fn spec_encode_frames(fs: Seq<FrameModel>) -> Seq<Seq<u8>> {
    Seq::new(fs.len(), |i: int| spec_encode_frame(fs[i]))
}

/// The acknowledgement payload for a receiver expecting `next`: it names
/// the highest contiguously received sequence number, one below `next`
/// in the circular space.
pub open spec fn spec_ack_payload(next: int) -> Seq<u8> {
    spec_encode_control(ControlMessage::Ack { sequence: ((next + 65535) % 65536) as u16 })
}

/// A control-channel datagram bearing `payload` under sequence number
/// `sequence`.
pub open spec fn spec_control_datagram(sequence: int, payload: Seq<u8>) -> Seq<u8> {
    spec_encode_frame(
        FrameModel { channel_id: CHANNEL_CONTROL, sequence: sequence as u16, payload },
    )
}

/// Builds the acknowledgement datagram for a receiver expecting
/// `next_expected`, stamping it on the control channel.
fn ack_datagram(control: &mut UnreliableChannel, next_expected: u16) -> (d: Vec<u8>)
    ensures
        d@ == spec_control_datagram(
            old(control).next_seq_spec(),
            spec_ack_payload(next_expected as int),
        ),
        final(control).next_seq_spec() == (old(control).next_seq_spec() + 1) % 65536,
{
    let previous: u16 = (((next_expected as u32) + 65535) % 65536) as u16;
    let payload: Vec<u8> = encode_control(&ControlMessage::Ack { sequence: previous });
    let frame: Frame = control.enqueue(CHANNEL_CONTROL, payload);
    encode_frame(&frame)
}

/// Collects the decode error of each delivered payload that encodes no
/// message, in delivery order.
fn collect_payload_errors(delivered: &Vec<Vec<u8>>) -> (errors: Vec<DecodeError>)
    ensures
        errors@ == spec_payload_errors(payloads_model(delivered@)),
{
    let n: usize = delivered.len();
    let mut errors: Vec<DecodeError> = Vec::new();
    let mut i: usize = 0;
    proof {
        assert(payloads_model(delivered@).take(0) =~= Seq::<Seq<u8>>::empty());
    }
    while i < n
        invariant
            i <= n,
            n == delivered@.len(),
            errors@ == spec_payload_errors(payloads_model(delivered@).take(i as int)),
        decreases n - i,
    {
        let r: Result<Message, DecodeError> = decode_message(&delivered[i]);
        match r {
            Ok(_) => {},
            Err(e) => {
                errors.push(e);
            },
        }
        proof {
            let full = payloads_model(delivered@);
            assert(full.take(i + 1).drop_last() =~= full.take(i as int));
            assert(full.take(i + 1).last() == full[i as int]);
        }
        i = i + 1;
    }
    proof {
        assert(payloads_model(delivered@).take(n as int) =~= payloads_model(delivered@));
    }
    errors
}

/// Collects the counters of the pongs among the delivered payloads.
fn extract_pongs(delivered: &Vec<Vec<u8>>) -> (pongs: Vec<u32>)
    ensures
        pongs@ == spec_payload_pongs(payloads_model(delivered@)),
{
    let n: usize = delivered.len();
    let mut pongs: Vec<u32> = Vec::new();
    let mut i: usize = 0;
    proof {
        assert(payloads_model(delivered@).take(0) =~= Seq::<Seq<u8>>::empty());
    }
    while i < n
        invariant
            i <= n,
            n == delivered@.len(),
            pongs@ == spec_payload_pongs(payloads_model(delivered@).take(i as int)),
        decreases n - i,
    {
        let r: Result<Message, DecodeError> = decode_message(&delivered[i]);
        match r {
            Ok(Message::Pong(c)) => {
                pongs.push(c);
            },
            _ => {},
        }
        proof {
            let full = payloads_model(delivered@);
            assert(full.take(i + 1).drop_last() =~= full.take(i as int));
            assert(full.take(i + 1).last() == full[i as int]);
        }
        i = i + 1;
    }
    proof {
        assert(payloads_model(delivered@).take(n as int) =~= payloads_model(delivered@));
    }
    pongs
}

/// Answers every ping among the delivered payloads on the given send
/// channel, returning the reply datagrams in order.
fn answer_pings(send: &mut SendChannel, delivered: &Vec<Vec<u8>>, now: u64) -> (out: Vec<Vec<u8>>)
    requires
        old(send).wf(),
    ensures
        final(send).wf(),
        ({
            let r = spec_pong_step(old(send)@, payloads_model(delivered@), now);
            final(send)@ == r.0 && payloads_model(out@) == r.1
        }),
{
    let ghost orig: SendModel = send@;
    let n: usize = delivered.len();
    let mut out: Vec<Vec<u8>> = Vec::new();
    let mut i: usize = 0;
    proof {
        assert(payloads_model(delivered@).take(0) =~= Seq::<Seq<u8>>::empty());
        assert(payloads_model(out@) =~= Seq::<Seq<u8>>::empty());
    }
    while i < n
        invariant
            i <= n,
            n == delivered@.len(),
            send.wf(),
            ({
                let r = spec_pong_step(orig, payloads_model(delivered@).take(i as int), now);
                send@ == r.0 && payloads_model(out@) == r.1
            }),
        decreases n - i,
    {
        let ghost before_out: Seq<Vec<u8>> = out@;
        let r: Result<Message, DecodeError> = decode_message(&delivered[i]);
        match r {
            Ok(Message::Ping(x)) => {
                if send.can_enqueue() {
                    let payload: Vec<u8> = encode_message(&Message::Pong(x));
                    let frame: Frame = send.enqueue(payload, now);
                    let datagram: Vec<u8> = encode_frame(&frame);
                    out.push(datagram);
                    proof {
                        assert(payloads_model(out@) =~= payloads_model(before_out).push(
                            spec_encode_frame(frame@),
                        ));
                    }
                }
            },
            _ => {},
        }
        proof {
            let full = payloads_model(delivered@);
            assert(full.take(i + 1).drop_last() =~= full.take(i as int));
            assert(full.take(i + 1).last() == full[i as int]);
        }
        i = i + 1;
    }
    proof {
        assert(payloads_model(delivered@).take(n as int) =~= payloads_model(delivered@));
    }
    out
}

/// What one incoming datagram produced at the client.
pub struct ClientEvents {
    /// Counters of the pongs newly delivered, in delivery order.
    pub pongs: Vec<u32>,
    /// Datagrams to put on the wire in reply, in order.
    pub outgoing: Vec<Vec<u8>>,
    /// The diagnostic signal when the datagram had to be dropped.
    pub dropped: Option<DropReason>,
    /// The diagnostic signal for each delivered payload that encodes no
    /// message and was dropped at the message layer, in delivery order.
    pub malformed: Vec<DecodeError>,
}

/// The client's side of the session: handshake state, the two ends of
/// its reliable-ordered channel, the control channel, and the periodic
/// ping driver.
pub struct ClientEndpoint {
    pub auth: ClientAuthenticator,
    pub control: UnreliableChannel,
    pub send: SendChannel,
    pub recv: ReceiveChannel,
    pub ping_counter: u32,
    pub timer: TickTimer,
}

impl ClientEndpoint {
    /// The channels and the timer keep their invariants, and the send
    /// channel feeds the reliable-ordered channel.
    pub open spec fn wf(self) -> bool {
        &&& self.send.wf()
        &&& self.recv.wf()
        &&& self.timer.wf()
        &&& self.send@.channel_id == CHANNEL_RELIABLE
    }

    /// A fresh client for the given protocol, pinging every
    /// `ping_interval` time units and retransmitting unacknowledged
    /// frames after `retransmit_after`.
    pub fn new(protocol_id: u32, client_id: u64, ping_interval: u64, retransmit_after: u64) -> (c:
        ClientEndpoint)
        requires
            ping_interval >= 1,
            retransmit_after >= 1,
        ensures
            c.wf(),
            c.auth.protocol_id == protocol_id,
            c.auth.requested_id == client_id,
            c.auth.state is AwaitingConnect,
            c.control.next_seq_spec() == 0,
            c.send@.base_index == 0,
            c.send@.pending == Seq::<PendingModel>::empty(),
            c.send@.retransmit_after == retransmit_after,
            c.recv@.next == 0,
            c.ping_counter == 0,
            c.timer.interval == ping_interval,
            c.timer.accumulated == 0,
    {
        ClientEndpoint {
            auth: ClientAuthenticator::new(protocol_id, client_id),
            control: UnreliableChannel::new(),
            send: SendChannel::new(CHANNEL_RELIABLE, retransmit_after),
            recv: ReceiveChannel::new(),
            ping_counter: 0,
            timer: TickTimer::new(ping_interval),
        }
    }

    /// Starts the handshake: moves to `Authenticating` and returns the
    /// connect-request datagram to send to the server.
    pub fn connect_datagram(&mut self) -> (d: Vec<u8>)
        requires
            old(self).wf(),
            old(self).auth.state is AwaitingConnect,
        ensures
            final(self).wf(),
            final(self).auth.state is Authenticating,
            final(self).auth.protocol_id == old(self).auth.protocol_id,
            final(self).auth.requested_id == old(self).auth.requested_id,
            final(self).auth.assigned_id == old(self).auth.assigned_id,
            final(self).send == old(self).send,
            final(self).recv == old(self).recv,
            final(self).ping_counter == old(self).ping_counter,
            final(self).timer == old(self).timer,
            final(self).control.next_seq_spec() == (old(self).control.next_seq_spec() + 1) % 65536,
            d@ == spec_control_datagram(
                old(self).control.next_seq_spec(),
                spec_encode_control(
                    ControlMessage::ConnectRequest {
                        protocol_id: old(self).auth.protocol_id,
                        client_id: old(self).auth.requested_id,
                    },
                ),
            ),
    {
        let m: ControlMessage = self.auth.connect_request();
        let payload: Vec<u8> = encode_control(&m);
        let frame: Frame = self.control.enqueue(CHANNEL_CONTROL, payload);
        encode_frame(&frame)
    }

    /// Routes one incoming datagram: control frames drive the handshake
    /// and the acknowledgement state, reliable frames run the receive
    /// window and are acknowledged, unreliable frames are delivered at
    /// once. Every dropped frame is reported, and a delivered payload
    /// that encodes no message is dropped at the message layer with its
    /// decode error listed in `malformed` (see [`spec_payload_errors`]
    /// for why the window still advances past such a frame).
    pub fn handle_datagram(&mut self, datagram: &Vec<u8>, now: u64) -> (r: ClientEvents)
        requires
            old(self).wf(),
        ensures
            final(self).wf(),
            final(self).ping_counter == old(self).ping_counter,
            final(self).timer == old(self).timer,
            r.malformed@ == ({
                let d = spec_decode_frame(datagram@);
                match d {
                    Ok(f) => {
                        if f.channel_id == CHANNEL_RELIABLE {
                            spec_payload_errors(
                                spec_ingest(old(self).recv@, f.sequence as int, f.payload).1,
                            )
                        } else if f.channel_id == CHANNEL_UNRELIABLE {
                            spec_payload_errors(seq![f.payload])
                        } else {
                            Seq::<DecodeError>::empty()
                        }
                    },
                    Err(_) => Seq::<DecodeError>::empty(),
                }
            }),
            ({
                let d = spec_decode_frame(datagram@);
                match d {
                    Err(e) => {
                        &&& final(self).auth == old(self).auth
                        &&& final(self).send == old(self).send
                        &&& final(self).recv == old(self).recv
                        &&& final(self).control == old(self).control
                        &&& r.pongs@ == Seq::<u32>::empty()
                        &&& r.outgoing@.len() == 0
                        &&& r.dropped == Some(DropReason::Malformed(e))
                    },
                    Ok(f) => {
                        if f.channel_id == CHANNEL_CONTROL {
                            match spec_decode_control(f.payload) {
                                Err(e) => {
                                    &&& final(self).auth == old(self).auth
                                    &&& final(self).send == old(self).send
                                    &&& final(self).recv == old(self).recv
                                    &&& final(self).control == old(self).control
                                    &&& r.pongs@ == Seq::<u32>::empty()
                                    &&& r.outgoing@.len() == 0
                                    &&& r.dropped == Some(DropReason::Malformed(e))
                                },
                                Ok(m) => {
                                    match m {
                                        ControlMessage::Ack { sequence } => {
                                            &&& final(self).auth == old(self).auth
                                            &&& final(self).send@ == spec_acknowledge(
                                                old(self).send@,
                                                sequence as int,
                                            )
                                            &&& final(self).recv == old(self).recv
                                            &&& final(self).control == old(self).control
                                            &&& r.pongs@ == Seq::<u32>::empty()
                                            &&& r.outgoing@.len() == 0
                                            &&& r.dropped is None
                                        },
                                        _ => {
                                            &&& final(self).auth == spec_client_on_response(
                                                old(self).auth,
                                                m,
                                            )
                                            &&& final(self).send == old(self).send
                                            &&& final(self).recv == old(self).recv
                                            &&& final(self).control == old(self).control
                                            &&& r.pongs@ == Seq::<u32>::empty()
                                            &&& r.outgoing@.len() == 0
                                            &&& r.dropped is None
                                        },
                                    }
                                },
                            }
                        } else if f.channel_id == CHANNEL_RELIABLE {
                            let step = spec_ingest(old(self).recv@, f.sequence as int, f.payload);
                            &&& final(self).auth == old(self).auth
                            &&& final(self).send == old(self).send
                            &&& final(self).recv@ == step.0
                            &&& r.pongs@ == spec_payload_pongs(step.1)
                            &&& (if step.2 is Delivered || step.2 is Duplicate {
                                &&& payloads_model(r.outgoing@) == seq![
                                    spec_control_datagram(
                                        old(self).control.next_seq_spec(),
                                        spec_ack_payload(step.0.next),
                                    ),
                                ]
                                &&& final(self).control.next_seq_spec() == (old(
                                    self,
                                ).control.next_seq_spec() + 1) % 65536
                            } else {
                                &&& r.outgoing@.len() == 0
                                &&& final(self).control == old(self).control
                            })
                            &&& r.dropped == (if step.2 is ProtocolViolation {
                                Some(DropReason::OutsideWindow)
                            } else {
                                None::<DropReason>
                            })
                        } else if f.channel_id == CHANNEL_UNRELIABLE {
                            &&& final(self).auth == old(self).auth
                            &&& final(self).send == old(self).send
                            &&& final(self).recv == old(self).recv
                            &&& final(self).control == old(self).control
                            &&& r.pongs@ == spec_payload_pongs(seq![f.payload])
                            &&& r.outgoing@.len() == 0
                            &&& r.dropped is None
                        } else {
                            &&& final(self).auth == old(self).auth
                            &&& final(self).send == old(self).send
                            &&& final(self).recv == old(self).recv
                            &&& final(self).control == old(self).control
                            &&& r.pongs@ == Seq::<u32>::empty()
                            &&& r.outgoing@.len() == 0
                            &&& r.dropped == Some(DropReason::UnknownChannel(f.channel_id))
                        }
                    },
                }
            }),
    {
        let fr: Result<Frame, DecodeError> = decode_frame(datagram);
        match fr {
            Err(e) => ClientEvents {
                pongs: Vec::new(),
                outgoing: Vec::new(),
                dropped: Some(DropReason::Malformed(e)),
                malformed: Vec::new(),
            },
            Ok(frame) => {
                if frame.channel_id == CHANNEL_CONTROL {
                    let c: Result<ControlMessage, DecodeError> = decode_control(&frame.payload);
                    match c {
                        Err(e) => ClientEvents {
                            pongs: Vec::new(),
                            outgoing: Vec::new(),
                            dropped: Some(DropReason::Malformed(e)),
                            malformed: Vec::new(),
                        },
                        Ok(ControlMessage::Ack { sequence }) => {
                            self.send.acknowledge(sequence);
                            ClientEvents {
                                pongs: Vec::new(),
                                outgoing: Vec::new(),
                                dropped: None,
                                malformed: Vec::new(),
                            }
                        },
                        Ok(m) => {
                            self.auth.on_response(m);
                            ClientEvents {
                                pongs: Vec::new(),
                                outgoing: Vec::new(),
                                dropped: None,
                                malformed: Vec::new(),
                            }
                        },
                    }
                } else if frame.channel_id == CHANNEL_RELIABLE {
                    let ingested: (Vec<Vec<u8>>, IngestVerdict) = self.recv.ingest(frame);
                    let (delivered, verdict) = ingested;
                    let pongs: Vec<u32> = extract_pongs(&delivered);
                    let malformed: Vec<DecodeError> = collect_payload_errors(&delivered);
                    let mut outgoing: Vec<Vec<u8>> = Vec::new();
                    if verdict == IngestVerdict::Delivered || verdict == IngestVerdict::Duplicate {
                        let next: u16 = self.recv.next_expected();
                        let d: Vec<u8> = ack_datagram(&mut self.control, next);
                        outgoing.push(d);
                        proof {
                            assert(payloads_model(outgoing@) =~= seq![d@]);
                        }
                    }
                    let dropped: Option<DropReason> = if verdict
                        == IngestVerdict::ProtocolViolation {
                        Some(DropReason::OutsideWindow)
                    } else {
                        None
                    };
                    ClientEvents { pongs, outgoing, dropped, malformed }
                } else if frame.channel_id == CHANNEL_UNRELIABLE {
                    let ghost payload_model: Seq<u8> = frame.payload@;
                    let payload: Vec<u8> = UnreliableChannel::deliver(frame);
                    let mut delivered: Vec<Vec<u8>> = Vec::new();
                    delivered.push(payload);
                    let pongs: Vec<u32> = extract_pongs(&delivered);
                    let malformed: Vec<DecodeError> = collect_payload_errors(&delivered);
                    proof {
                        assert(payloads_model(delivered@) =~= seq![payload_model]);
                    }
                    ClientEvents { pongs, outgoing: Vec::new(), dropped: None, malformed }
                } else {
                    ClientEvents {
                        pongs: Vec::new(),
                        outgoing: Vec::new(),
                        dropped: Some(DropReason::UnknownChannel(frame.channel_id)),
                        malformed: Vec::new(),
                    }
                }
            },
        }
    }

    /// One periodic tick: retransmits what is due and, when the ping
    /// timer fires, sends the next `Ping` and advances the counter,
    /// wrapping on overflow. Returns the datagrams to put on the wire,
    /// retransmissions first, in send order.
    pub fn tick(&mut self, elapsed: u64, now: u64) -> (out: Vec<Vec<u8>>)
        requires
            old(self).wf(),
            old(self).timer.accumulated + elapsed <= u64::MAX,
            old(self).send@.base_index + old(self).send@.pending.len() < u64::MAX,
        ensures
            final(self).wf(),
            final(self).auth == old(self).auth,
            final(self).recv == old(self).recv,
            final(self).control == old(self).control,
            final(self).timer.interval == old(self).timer.interval,
            final(self).send@.channel_id == CHANNEL_RELIABLE,
            final(self).send@.base_index == old(self).send@.base_index,
            final(self).send@.retransmit_after == old(self).send@.retransmit_after,
            ({
                let fired = old(self).timer.accumulated + elapsed >= old(self).timer.interval;
                let after = old(self).send@.retransmit_after;
                let due = spec_due_frames(old(self).send@.pending, now as int, after, CHANNEL_RELIABLE);
                let restamped = spec_restamp_pending(old(self).send@.pending, now, after);
                let ping_payload = spec_encode_message(Message::Ping(old(self).ping_counter));
                let ping_sequence = wire_sequence(
                    old(self).send@.base_index + old(self).send@.pending.len(),
                ) as u16;
                let ping_datagram = spec_encode_frame(
                    FrameModel {
                        channel_id: CHANNEL_RELIABLE,
                        sequence: ping_sequence,
                        payload: ping_payload,
                    },
                );
                &&& final(self).timer.accumulated == (if fired {
                    (old(self).timer.accumulated + elapsed) % (old(self).timer.interval as int)
                } else {
                    old(self).timer.accumulated + elapsed
                })
                &&& final(self).ping_counter == (if fired {
                    if old(self).ping_counter == u32::MAX {
                        0u32
                    } else {
                        (old(self).ping_counter + 1) as u32
                    }
                } else {
                    old(self).ping_counter
                })
                &&& final(self).send@.pending == (if fired {
                    restamped.push(
                        PendingModel {
                            sequence: ping_sequence,
                            payload: ping_payload,
                            last_send: now,
                        },
                    )
                } else {
                    restamped
                })
                &&& payloads_model(out@) == (if fired {
                    spec_encode_frames(due).push(ping_datagram)
                } else {
                    spec_encode_frames(due)
                })
            }),
    {
        let fired: bool = self.timer.advance(elapsed);
        let frames: Vec<Frame> = self.send.retransmissions(now);
        let mut out: Vec<Vec<u8>> = Vec::new();
        let n: usize = frames.len();
        let mut i: usize = 0;
        proof {
            assert(payloads_model(out@) =~= spec_encode_frames(
                crate::channel::frames_model(frames@),
            ).take(0));
        }
        while i < n
            invariant
                i <= n,
                n == frames@.len(),
                payloads_model(out@) == spec_encode_frames(
                    crate::channel::frames_model(frames@),
                ).take(i as int),
            decreases n - i,
        {
            let ghost before_out: Seq<Vec<u8>> = out@;
            let d: Vec<u8> = encode_frame(&frames[i]);
            out.push(d);
            proof {
                let fm = crate::channel::frames_model(frames@);
                assert(payloads_model(before_out).len() == before_out.len());
                assert(spec_encode_frames(fm).len() == n);
                assert(spec_encode_frames(fm).take(i as int).len() == i);
                assert(before_out.len() == i);
                assert(out@ == before_out.push(d));
                assert(d@ == spec_encode_frame(fm[i as int]));
                assert forall|t: int| 0 <= t < i + 1 implies payloads_model(out@)[t]
                    == spec_encode_frames(fm).take(i + 1)[t] by {
                    if t < i {
                        assert(payloads_model(before_out)[t] == spec_encode_frames(fm).take(
                            i as int,
                        )[t]);
                    }
                }
                assert(payloads_model(out@) =~= spec_encode_frames(fm).take(i + 1));
            }
            i = i + 1;
        }
        proof {
            assert(spec_encode_frames(crate::channel::frames_model(frames@)).take(n as int)
                =~= spec_encode_frames(crate::channel::frames_model(frames@)));
        }
        if fired {
            let payload: Vec<u8> = encode_message(&Message::Ping(self.ping_counter));
            self.ping_counter = if self.ping_counter == u32::MAX {
                0
            } else {
                self.ping_counter + 1
            };
            let frame: Frame = self.send.enqueue(payload, now);
            let d: Vec<u8> = encode_frame(&frame);
            let ghost before_out: Seq<Vec<u8>> = out@;
            out.push(d);
            proof {
                assert(payloads_model(out@) =~= payloads_model(before_out).push(d@));
            }
        }
        out
    }
}

/// The position of the first session at `peer`, or `-1` when none is.
pub open spec fn spec_peer_index(sessions: Seq<Session>, peer: PeerAddr) -> int
    decreases sessions.len(),
{
    if sessions.len() == 0 {
        -1
    } else if sessions[0].peer == peer {
        0
    } else {
        let rest = spec_peer_index(sessions.drop_first(), peer);
        if rest == -1 {
            -1
        } else {
            1 + rest
        }
    }
}

/// `spec_peer_index` names the first match, and `-1` exactly when there
/// is none.
pub proof fn lemma_peer_index(sessions: Seq<Session>, peer: PeerAddr)
    ensures
        spec_peer_index(sessions, peer) == -1 ==> forall|j: int|
            0 <= j < sessions.len() ==> (#[trigger] sessions[j]).peer != peer,
        spec_peer_index(sessions, peer) != -1 ==> {
            let r = spec_peer_index(sessions, peer);
            &&& 0 <= r < sessions.len()
            &&& sessions[r].peer == peer
            &&& forall|j: int| 0 <= j < r ==> (#[trigger] sessions[j]).peer != peer
        },
    decreases sessions.len(),
{
    if sessions.len() > 0 && sessions[0].peer != peer {
        lemma_peer_index(sessions.drop_first(), peer);
        let rest = spec_peer_index(sessions.drop_first(), peer);
        if rest == -1 {
            assert forall|j: int| 0 <= j < sessions.len() implies (#[trigger] sessions[j]).peer
                != peer by {
                if j > 0 {
                    assert(sessions.drop_first()[j - 1].peer != peer);
                }
            }
        } else {
            assert(sessions[1 + rest] == sessions.drop_first()[rest]);
            assert forall|j: int| 0 <= j < 1 + rest implies (#[trigger] sessions[j]).peer
                != peer by {
                if j > 0 {
                    assert(sessions.drop_first()[j - 1].peer != peer);
                }
            }
        }
    }
}

/// What one incoming datagram produced at the server.
pub struct ServerEvents {
    /// Datagrams to send back to the datagram's peer, in order.
    pub outgoing: Vec<Vec<u8>>,
    /// The identifier of a newly registered session, if the datagram
    /// completed a handshake for a new client.
    pub accepted: Option<u64>,
    /// The diagnostic signal when the datagram had to be dropped or the
    /// handshake refused.
    pub dropped: Option<DropReason>,
    /// The diagnostic signal for each delivered payload that encodes no
    /// message and was dropped at the message layer, in delivery order.
    pub malformed: Vec<DecodeError>,
}

/// One datagram owed to a peer.
pub struct Outbound {
    pub peer: PeerAddr,
    pub datagram: Vec<u8>,
}

/// The mathematical image of an outbound datagram.
pub struct OutboundModel {
    pub peer: PeerAddr,
    pub datagram: Seq<u8>,
}

impl View for Outbound {
    type V = OutboundModel;

    open spec fn view(&self) -> OutboundModel {
        OutboundModel { peer: self.peer, datagram: self.datagram@ }
    }
}

/// The mathematical image of a list of outbound datagrams.
pub open spec fn outbound_model(v: Seq<Outbound>) -> Seq<OutboundModel> {
    Seq::new(v.len(), |i: int| v[i]@)
}

/// The retransmission datagrams one session owes at `now`, each
/// addressed to that session's peer.
pub open spec fn spec_session_outgoing(s: Session, now: int) -> Seq<OutboundModel> {
    let due = spec_due_frames(s.send@.pending, now, s.send@.retransmit_after, s.send@.channel_id);
    Seq::new(due.len(), |i: int| OutboundModel { peer: s.peer, datagram: spec_encode_frame(due[i]) })
}

/// The retransmission datagrams a whole session list owes at `now`, in
/// registry order.
pub open spec fn spec_tick_outgoing(sessions: Seq<Session>, now: int) -> Seq<OutboundModel>
    decreases sessions.len(),
{
    if sessions.len() == 0 {
        Seq::<OutboundModel>::empty()
    } else {
        spec_tick_outgoing(sessions.drop_last(), now) + spec_session_outgoing(sessions.last(), now)
    }
}

/// The server's side of the sessions: the authenticator, the registry of
/// live sessions, and the control channel its replies go out on.
pub struct ServerEndpoint {
    pub auth: ServerAuthenticator,
    pub registry: SessionRegistry,
    pub control: UnreliableChannel,
    pub retransmit_after: u64,
}

impl ServerEndpoint {
    /// The registry keeps its invariants and every session's send channel
    /// feeds the reliable-ordered channel.
    pub open spec fn wf(self) -> bool {
        &&& self.registry.wf()
        &&& self.retransmit_after >= 1
        &&& forall|i: int|
            0 <= i < self.registry.sessions@.len() ==> (#[trigger] self.registry.sessions@[i]).send@.channel_id
                == CHANNEL_RELIABLE
    }

    /// A fresh server for the given protocol and policy, retransmitting
    /// unacknowledged frames after `retransmit_after`.
    pub fn new(protocol_id: u32, mode: crate::handshake::AuthMode, retransmit_after: u64) -> (s:
        ServerEndpoint)
        requires
            retransmit_after >= 1,
        ensures
            s.wf(),
            s.auth.protocol_id == protocol_id,
            s.auth.mode == mode,
            s.registry.sessions@.len() == 0,
            s.control.next_seq_spec() == 0,
            s.retransmit_after == retransmit_after,
    {
        ServerEndpoint {
            auth: ServerAuthenticator::new(protocol_id, mode),
            registry: SessionRegistry::new(),
            control: UnreliableChannel::new(),
            retransmit_after,
        }
    }

    /// Routes one incoming datagram from `peer`: connect requests run the
    /// handshake and register accepted sessions, acknowledgements release
    /// pending frames, reliable frames run that session's receive window,
    /// every delivered `Ping` is answered with its `Pong` in the same
    /// tick, and every dropped frame or refused handshake is reported. A
    /// delivered payload that encodes no message is dropped at the
    /// message layer with its decode error listed in `malformed` (see
    /// [`spec_payload_errors`] for why the window still advances past
    /// such a frame).
    #[verifier::rlimit(100)]
    pub fn handle_datagram(&mut self, peer: PeerAddr, datagram: &Vec<u8>, now: u64) -> (r:
        ServerEvents)
        requires
            old(self).wf(),
        ensures
            final(self).wf(),
            final(self).auth == old(self).auth,
            final(self).retransmit_after == old(self).retransmit_after,
            r.malformed@ == ({
                let d = spec_decode_frame(datagram@);
                let sessions = old(self).registry.sessions@;
                let idx = spec_peer_index(sessions, peer);
                match d {
                    Ok(f) => {
                        if f.channel_id == CHANNEL_RELIABLE && idx >= 0 {
                            spec_payload_errors(
                                spec_ingest(
                                    sessions[idx].recv@,
                                    f.sequence as int,
                                    f.payload,
                                ).1,
                            )
                        } else if f.channel_id == CHANNEL_UNRELIABLE && idx >= 0 {
                            spec_payload_errors(seq![f.payload])
                        } else {
                            Seq::<DecodeError>::empty()
                        }
                    },
                    Err(_) => Seq::<DecodeError>::empty(),
                }
            }),
            ({
                let d = spec_decode_frame(datagram@);
                let sessions = old(self).registry.sessions@;
                let idx = spec_peer_index(sessions, peer);
                match d {
                    Err(e) => {
                        &&& final(self).registry.sessions@ == sessions
                        &&& final(self).control == old(self).control
                        &&& r.outgoing@.len() == 0
                        &&& r.accepted is None
                        &&& r.dropped == Some(DropReason::Malformed(e))
                    },
                    Ok(f) => {
                        if f.channel_id == CHANNEL_CONTROL {
                            match spec_decode_control(f.payload) {
                                Err(e) => {
                                    &&& final(self).registry.sessions@ == sessions
                                    &&& final(self).control == old(self).control
                                    &&& r.outgoing@.len() == 0
                                    &&& r.accepted is None
                                    &&& r.dropped == Some(DropReason::Malformed(e))
                                },
                                Ok(ControlMessage::ConnectRequest { protocol_id, client_id }) => {
                                    match spec_handle_connect(
                                        old(self).auth,
                                        protocol_id,
                                        client_id,
                                    ) {
                                        Ok(id) => {
                                            &&& payloads_model(r.outgoing@) == seq![
                                                spec_control_datagram(
                                                    old(self).control.next_seq_spec(),
                                                    spec_encode_control(
                                                        ControlMessage::ConnectAccept {
                                                            client_id: id,
                                                        },
                                                    ),
                                                ),
                                            ]
                                            &&& final(self).control.next_seq_spec() == (old(
                                                self,
                                            ).control.next_seq_spec() + 1) % 65536
                                            &&& r.dropped is None
                                            &&& (if old(self).registry.contains_spec(id) {
                                                final(self).registry.sessions@ == sessions
                                                    && r.accepted is None
                                            } else {
                                                &&& final(self).registry.sessions@.len()
                                                    == sessions.len() + 1
                                                &&& final(self).registry.sessions@.take(
                                                    sessions.len() as int,
                                                ) == sessions
                                                &&& {
                                                    let added = final(self).registry.sessions@.last();
                                                    &&& added.client_id == id
                                                    &&& added.peer == peer
                                                    &&& added.state is Connected
                                                    &&& added.send@.base_index == 0
                                                    &&& added.send@.pending
                                                        == Seq::<PendingModel>::empty()
                                                    &&& added.send@.retransmit_after == old(
                                                        self,
                                                    ).retransmit_after
                                                    &&& added.recv@.next == 0
                                                }
                                                &&& r.accepted == Some(id)
                                            })
                                        },
                                        Err(reason) => {
                                            &&& final(self).registry.sessions@ == sessions
                                            &&& payloads_model(r.outgoing@) == seq![
                                                spec_control_datagram(
                                                    old(self).control.next_seq_spec(),
                                                    spec_encode_control(
                                                        ControlMessage::ConnectReject {
                                                            reason_code: reason,
                                                        },
                                                    ),
                                                ),
                                            ]
                                            &&& final(self).control.next_seq_spec() == (old(
                                                self,
                                            ).control.next_seq_spec() + 1) % 65536
                                            &&& r.accepted is None
                                            &&& r.dropped == Some(
                                                DropReason::HandshakeRefused(reason),
                                            )
                                        },
                                    }
                                },
                                Ok(ControlMessage::Ack { sequence }) => {
                                    &&& final(self).control == old(self).control
                                    &&& r.outgoing@.len() == 0
                                    &&& r.accepted is None
                                    &&& (if idx >= 0 {
                                        &&& final(self).registry.sessions@.len() == sessions.len()
                                        &&& (forall|j: int|
                                            0 <= j < sessions.len() && j != idx
                                                ==> final(self).registry.sessions@[j]
                                                == sessions[j])
                                        &&& {
                                            let s0 = sessions[idx];
                                            let s1 = final(self).registry.sessions@[idx];
                                            &&& s1.client_id == s0.client_id
                                            &&& s1.peer == s0.peer
                                            &&& s1.state == s0.state
                                            &&& s1.recv == s0.recv
                                            &&& s1.send@ == spec_acknowledge(
                                                s0.send@,
                                                sequence as int,
                                            )
                                        }
                                        &&& r.dropped is None
                                    } else {
                                        final(self).registry.sessions@ == sessions && r.dropped
                                            == Some(DropReason::UnknownPeer)
                                    })
                                },
                                Ok(_) => {
                                    &&& final(self).registry.sessions@ == sessions
                                    &&& final(self).control == old(self).control
                                    &&& r.outgoing@.len() == 0
                                    &&& r.accepted is None
                                    &&& r.dropped == Some(DropReason::Unexpected)
                                },
                            }
                        } else if f.channel_id == CHANNEL_RELIABLE {
                            &&& r.accepted is None
                            &&& (if idx >= 0 {
                                let s0 = sessions[idx];
                                let step = spec_ingest(s0.recv@, f.sequence as int, f.payload);
                                let pong = spec_pong_step(s0.send@, step.1, now);
                                let acked = step.2 is Delivered || step.2 is Duplicate;
                                &&& final(self).registry.sessions@.len() == sessions.len()
                                &&& (forall|j: int|
                                    0 <= j < sessions.len() && j != idx ==> final(self).registry.sessions@[j] == sessions[j])
                                &&& {
                                    let s1 = final(self).registry.sessions@[idx];
                                    &&& s1.client_id == s0.client_id
                                    &&& s1.peer == s0.peer
                                    &&& s1.state == s0.state
                                    &&& s1.recv@ == step.0
                                    &&& s1.send@ == pong.0
                                }
                                &&& payloads_model(r.outgoing@) == (if acked {
                                    pong.1.push(
                                        spec_control_datagram(
                                            old(self).control.next_seq_spec(),
                                            spec_ack_payload(step.0.next),
                                        ),
                                    )
                                } else {
                                    pong.1
                                })
                                &&& final(self).control.next_seq_spec() == (if acked {
                                    (old(self).control.next_seq_spec() + 1) % 65536
                                } else {
                                    old(self).control.next_seq_spec()
                                })
                                &&& r.dropped == (if step.2 is ProtocolViolation {
                                    Some(DropReason::OutsideWindow)
                                } else {
                                    None::<DropReason>
                                })
                            } else {
                                &&& final(self).registry.sessions@ == sessions
                                &&& final(self).control == old(self).control
                                &&& r.outgoing@.len() == 0
                                &&& r.dropped == Some(DropReason::UnknownPeer)
                            })
                        } else if f.channel_id == CHANNEL_UNRELIABLE {
                            &&& r.accepted is None
                            &&& final(self).control == old(self).control
                            &&& (if idx >= 0 {
                                let s0 = sessions[idx];
                                let pong = spec_pong_step(s0.send@, seq![f.payload], now);
                                &&& final(self).registry.sessions@.len() == sessions.len()
                                &&& (forall|j: int|
                                    0 <= j < sessions.len() && j != idx ==> final(self).registry.sessions@[j] == sessions[j])
                                &&& {
                                    let s1 = final(self).registry.sessions@[idx];
                                    &&& s1.client_id == s0.client_id
                                    &&& s1.peer == s0.peer
                                    &&& s1.state == s0.state
                                    &&& s1.recv == s0.recv
                                    &&& s1.send@ == pong.0
                                }
                                &&& payloads_model(r.outgoing@) == pong.1
                                &&& r.dropped is None
                            } else {
                                &&& final(self).registry.sessions@ == sessions
                                &&& r.outgoing@.len() == 0
                                &&& r.dropped == Some(DropReason::UnknownPeer)
                            })
                        } else {
                            &&& final(self).registry.sessions@ == sessions
                            &&& final(self).control == old(self).control
                            &&& r.outgoing@.len() == 0
                            &&& r.accepted is None
                            &&& r.dropped == Some(DropReason::UnknownChannel(f.channel_id))
                        }
                    },
                }
            }),
    {
        proof {
            lemma_peer_index(old(self).registry.sessions@, peer);
        }
        let fr: Result<Frame, DecodeError> = decode_frame(datagram);
        match fr {
            Err(e) => ServerEvents {
                outgoing: Vec::new(),
                accepted: None,
                dropped: Some(DropReason::Malformed(e)),
                malformed: Vec::new(),
            },
            Ok(frame) => {
                if frame.channel_id == CHANNEL_CONTROL {
                    let c: Result<ControlMessage, DecodeError> = decode_control(&frame.payload);
                    match c {
                        Err(e) => ServerEvents {
                            outgoing: Vec::new(),
                            accepted: None,
                            dropped: Some(DropReason::Malformed(e)),
                            malformed: Vec::new(),
                        },
                        Ok(ControlMessage::ConnectRequest { protocol_id, client_id }) => {
                            let verdict: Result<u64, u8> = self.auth.handle_connect_request(
                                protocol_id,
                                client_id,
                            );
                            match verdict {
                                Ok(id) => {
                                    let mut accepted: Option<u64> = None;
                                    let known: Option<usize> = self.registry.index_of(id);
                                    if known.is_none() {
                                        let session = Session {
                                            client_id: id,
                                            peer,
                                            state: SessionState::Connected,
                                            send: SendChannel::new(
                                                CHANNEL_RELIABLE,
                                                self.retransmit_after,
                                            ),
                                            recv: ReceiveChannel::new(),
                                        };
                                        let ghost before_add: Seq<Session> = old(
                                            self,
                                        ).registry.sessions@;
                                        self.registry.add(session);
                                        accepted = Some(id);
                                        proof {
                                            assert forall|j: int|
                                                0 <= j < self.registry.sessions@.len() implies (
                                            #[trigger] self.registry.sessions@[j]).send@.channel_id
                                                == CHANNEL_RELIABLE by {
                                                if j < before_add.len() {
                                                    assert(self.registry.sessions@[j]
                                                        == before_add[j]);
                                                }
                                            }
                                            assert(self.registry.sessions@.take(
                                                before_add.len() as int,
                                            ) =~= before_add);
                                        }
                                    }
                                    let payload: Vec<u8> = encode_control(
                                        &ControlMessage::ConnectAccept { client_id: id },
                                    );
                                    let reply: Frame = self.control.enqueue(
                                        CHANNEL_CONTROL,
                                        payload,
                                    );
                                    let d: Vec<u8> = encode_frame(&reply);
                                    let mut outgoing: Vec<Vec<u8>> = Vec::new();
                                    outgoing.push(d);
                                    proof {
                                        assert(payloads_model(outgoing@) =~= seq![
                                            spec_control_datagram(
                                                old(self).control.next_seq_spec(),
                                                spec_encode_control(
                                                    ControlMessage::ConnectAccept {
                                                        client_id: id,
                                                    },
                                                ),
                                            ),
                                        ]);
                                    }
                                    ServerEvents {
                                        outgoing,
                                        accepted,
                                        dropped: None,
                                        malformed: Vec::new(),
                                    }
                                },
                                Err(reason) => {
                                    let payload: Vec<u8> = encode_control(
                                        &ControlMessage::ConnectReject { reason_code: reason },
                                    );
                                    let reply: Frame = self.control.enqueue(
                                        CHANNEL_CONTROL,
                                        payload,
                                    );
                                    let d: Vec<u8> = encode_frame(&reply);
                                    let mut outgoing: Vec<Vec<u8>> = Vec::new();
                                    outgoing.push(d);
                                    proof {
                                        assert(payloads_model(outgoing@) =~= seq![
                                            spec_control_datagram(
                                                old(self).control.next_seq_spec(),
                                                spec_encode_control(
                                                    ControlMessage::ConnectReject {
                                                        reason_code: reason,
                                                    },
                                                ),
                                            ),
                                        ]);
                                    }
                                    ServerEvents {
                                        outgoing,
                                        accepted: None,
                                        dropped: Some(DropReason::HandshakeRefused(reason)),
                                        malformed: Vec::new(),
                                    }
                                },
                            }
                        },
                        Ok(ControlMessage::Ack { sequence }) => {
                            let found: Option<usize> = self.registry.index_of_peer(peer);
                            match found {
                                Some(i) => {
                                    let ghost sessions0: Seq<Session> = self.registry.sessions@;
                                    let mut session: Session = self.registry.sessions.remove(i);
                                    session.send.acknowledge(sequence);
                                    self.registry.sessions.insert(i, session);
                                    proof {
                                        assert(i as int == spec_peer_index(sessions0, peer));
                                        assert forall|j: int|
                                            0 <= j < sessions0.len() && j != i implies self
                                            .registry.sessions@[j] == sessions0[j] by {
                                            if j < i {
                                                assert(sessions0.remove(i as int)[j]
                                                    == sessions0[j]);
                                            } else {
                                                assert(sessions0.remove(i as int)[j - 1]
                                                    == sessions0[j]);
                                            }
                                        }

                                        assert(self.registry.sessions@[i as int] == session);
                                        assert forall|j: int|
                                            0 <= j < self.registry.sessions@.len() implies (
                                        #[trigger] self.registry.sessions@[j]).send@.channel_id
                                            == CHANNEL_RELIABLE by {
                                            if j != i {
                                                assert(self.registry.sessions@[j] == sessions0[j]);
                                            }
                                        }
                                    }
                                    ServerEvents {
                                        outgoing: Vec::new(),
                                        accepted: None,
                                        dropped: None,
                                        malformed: Vec::new(),
                                    }
                                },
                                None => ServerEvents {
                                    outgoing: Vec::new(),
                                    accepted: None,
                                    dropped: Some(DropReason::UnknownPeer),
                                    malformed: Vec::new(),
                                },
                            }
                        },
                        Ok(_) => ServerEvents {
                            outgoing: Vec::new(),
                            accepted: None,
                            dropped: Some(DropReason::Unexpected),
                            malformed: Vec::new(),
                        },
                    }
                } else if frame.channel_id == CHANNEL_RELIABLE {
                    let found: Option<usize> = self.registry.index_of_peer(peer);
                    match found {
                        Some(i) => {
                            let ghost sessions0: Seq<Session> = self.registry.sessions@;
                            let ghost old_frame_sequence: u16 = frame.sequence;
                            let ghost old_frame_payload: Seq<u8> = frame.payload@;
                            let mut session: Session = self.registry.sessions.remove(i);
                            let ingested: (Vec<Vec<u8>>, IngestVerdict) = session.recv.ingest(
                                frame,
                            );
                            let (delivered, verdict) = ingested;
                            let malformed: Vec<DecodeError> = collect_payload_errors(&delivered);
                            let mut outgoing: Vec<Vec<u8>> = answer_pings(
                                &mut session.send,
                                &delivered,
                                now,
                            );
                            if verdict == IngestVerdict::Delivered || verdict
                                == IngestVerdict::Duplicate {
                                let next: u16 = session.recv.next_expected();
                                let ghost before_out: Seq<Vec<u8>> = outgoing@;
                                let d: Vec<u8> = ack_datagram(&mut self.control, next);
                                outgoing.push(d);
                                proof {
                                    assert(payloads_model(outgoing@) =~= payloads_model(
                                        before_out,
                                    ).push(d@));
                                }
                            }
                            self.registry.sessions.insert(i, session);
                            proof {
                                assert(i as int == spec_peer_index(sessions0, peer));
                                lemma_pong_step_preserves(
                                    sessions0[i as int].send@,
                                    spec_ingest(
                                        sessions0[i as int].recv@,
                                        old_frame_sequence as int,
                                        old_frame_payload,
                                    ).1,
                                    now,
                                );
                                assert forall|j: int|
                                    0 <= j < sessions0.len() && j != i implies self
                                    .registry.sessions@[j] == sessions0[j] by {
                                    if j < i {
                                        assert(sessions0.remove(i as int)[j] == sessions0[j]);
                                    } else {
                                        assert(sessions0.remove(i as int)[j - 1] == sessions0[j]);
                                    }
                                }
                                assert(self.registry.sessions@[i as int] == session);
                                assert forall|j: int|
                                    0 <= j < self.registry.sessions@.len() implies (
                                #[trigger] self.registry.sessions@[j]).send@.channel_id
                                    == CHANNEL_RELIABLE by {
                                    if j != i {
                                        assert(self.registry.sessions@[j] == sessions0[j]);
                                    }
                                }
                            }
                            let dropped: Option<DropReason> = if verdict
                                == IngestVerdict::ProtocolViolation {
                                Some(DropReason::OutsideWindow)
                            } else {
                                None
                            };
                            ServerEvents { outgoing, accepted: None, dropped, malformed }
                        },
                        None => ServerEvents {
                            outgoing: Vec::new(),
                            accepted: None,
                            dropped: Some(DropReason::UnknownPeer),
                            malformed: Vec::new(),
                        },
                    }
                } else if frame.channel_id == CHANNEL_UNRELIABLE {
                    let found: Option<usize> = self.registry.index_of_peer(peer);
                    match found {
                        Some(i) => {
                            let ghost sessions0: Seq<Session> = self.registry.sessions@;
                            let ghost payload_model: Seq<u8> = frame.payload@;
                            let mut session: Session = self.registry.sessions.remove(i);
                            let payload: Vec<u8> = UnreliableChannel::deliver(frame);
                            let mut delivered: Vec<Vec<u8>> = Vec::new();
                            delivered.push(payload);
                            proof {
                                assert(payloads_model(delivered@) =~= seq![payload_model]);
                            }
                            let malformed: Vec<DecodeError> = collect_payload_errors(&delivered);
                            let outgoing: Vec<Vec<u8>> = answer_pings(
                                &mut session.send,
                                &delivered,
                                now,
                            );
                            self.registry.sessions.insert(i, session);
                            proof {
                                assert(i as int == spec_peer_index(sessions0, peer));
                                lemma_pong_step_preserves(
                                    sessions0[i as int].send@,
                                    seq![payload_model],
                                    now,
                                );
                                assert forall|j: int|
                                    0 <= j < sessions0.len() && j != i implies self
                                    .registry.sessions@[j] == sessions0[j] by {
                                    if j < i {
                                        assert(sessions0.remove(i as int)[j] == sessions0[j]);
                                    } else {
                                        assert(sessions0.remove(i as int)[j - 1] == sessions0[j]);
                                    }
                                }
                                assert(self.registry.sessions@[i as int] == session);
                                assert forall|j: int|
                                    0 <= j < self.registry.sessions@.len() implies (
                                #[trigger] self.registry.sessions@[j]).send@.channel_id
                                    == CHANNEL_RELIABLE by {
                                    if j != i {
                                        assert(self.registry.sessions@[j] == sessions0[j]);
                                    }
                                }
                            }
                            ServerEvents { outgoing, accepted: None, dropped: None, malformed }
                        },
                        None => ServerEvents {
                            outgoing: Vec::new(),
                            accepted: None,
                            dropped: Some(DropReason::UnknownPeer),
                            malformed: Vec::new(),
                        },
                    }
                } else {
                    ServerEvents {
                        outgoing: Vec::new(),
                        accepted: None,
                        dropped: Some(DropReason::UnknownChannel(frame.channel_id)),
                        malformed: Vec::new(),
                    }
                }
            },
        }
    }

    /// One periodic tick: every session retransmits what is due, and each
    /// datagram is addressed to its session's peer, in registry order.
    #[verifier::rlimit(100)]
    pub fn tick(&mut self, now: u64) -> (out: Vec<Outbound>)
        requires
            old(self).wf(),
        ensures
            final(self).wf(),
            final(self).auth == old(self).auth,
            final(self).control == old(self).control,
            final(self).retransmit_after == old(self).retransmit_after,
            final(self).registry.sessions@.len() == old(self).registry.sessions@.len(),
            forall|j: int|
                0 <= j < old(self).registry.sessions@.len() ==> {
                    let s0 = #[trigger] old(self).registry.sessions@[j];
                    let s1 = final(self).registry.sessions@[j];
                    &&& s1.client_id == s0.client_id
                    &&& s1.peer == s0.peer
                    &&& s1.state == s0.state
                    &&& s1.recv == s0.recv
                    &&& s1.send@.channel_id == s0.send@.channel_id
                    &&& s1.send@.base_index == s0.send@.base_index
                    &&& s1.send@.retransmit_after == s0.send@.retransmit_after
                    &&& s1.send@.pending == spec_restamp_pending(
                        s0.send@.pending,
                        now,
                        s0.send@.retransmit_after,
                    )
                },
            outbound_model(out@) == spec_tick_outgoing(old(self).registry.sessions@, now as int),
    {
        let ghost sessions0: Seq<Session> = self.registry.sessions@;
        let ghost auth0: ServerAuthenticator = self.auth;
        let ghost control0: UnreliableChannel = self.control;
        let ghost after0: u64 = self.retransmit_after;
        let mut out: Vec<Outbound> = Vec::new();
        let n: usize = self.registry.len();
        let mut i: usize = 0;
        proof {
            assert(outbound_model(out@) =~= spec_tick_outgoing(sessions0.take(0), now as int));
        }
        while i < n
            invariant
                i <= n,
                n == sessions0.len(),
                self.auth == auth0,
                self.control == control0,
                self.retransmit_after == after0,
                self.registry.sessions@.len() == n,
                forall|j: int, k: int|
                    0 <= j < k < n ==> sessions0[j].client_id != sessions0[k].client_id,
                forall|j: int| 0 <= j < n ==> (#[trigger] sessions0[j]).wf(),
                forall|j: int|
                    0 <= j < n ==> (#[trigger] sessions0[j]).send@.channel_id == CHANNEL_RELIABLE,
                forall|j: int|
                    i <= j < n ==> self.registry.sessions@[j] == sessions0[j],
                forall|j: int|
                    0 <= j < i ==> {
                        let s0 = #[trigger] sessions0[j];
                        let s1 = self.registry.sessions@[j];
                        &&& s1.client_id == s0.client_id
                        &&& s1.peer == s0.peer
                        &&& s1.state == s0.state
                        &&& s1.recv == s0.recv
                        &&& s1.send.wf()
                        &&& s1.send@.channel_id == s0.send@.channel_id
                        &&& s1.send@.base_index == s0.send@.base_index
                        &&& s1.send@.retransmit_after == s0.send@.retransmit_after
                        &&& s1.send@.pending == spec_restamp_pending(
                            s0.send@.pending,
                            now,
                            s0.send@.retransmit_after,
                        )
                    },
                outbound_model(out@) == spec_tick_outgoing(sessions0.take(i as int), now as int),
            decreases n - i,
        {
            let ghost before_sessions: Seq<Session> = self.registry.sessions@;
            let mut session: Session = self.registry.sessions.remove(i);
            proof {
                assert(session == sessions0[i as int]);
            }
            let ghost s0: Session = session;
            let frames: Vec<Frame> = session.send.retransmissions(now);
            let peer: PeerAddr = session.peer;
            let m: usize = frames.len();
            let mut t: usize = 0;
            proof {
                assert(spec_session_outgoing(s0, now as int).take(0)
                    =~= Seq::<OutboundModel>::empty());
                assert(outbound_model(out@) + spec_session_outgoing(s0, now as int).take(0)
                    =~= outbound_model(out@));
            }
            while t < m
                invariant
                    t <= m,
                    m == frames@.len(),
                    peer == s0.peer,
                    crate::channel::frames_model(frames@) == spec_due_frames(
                        s0.send@.pending,
                        now as int,
                        s0.send@.retransmit_after,
                        s0.send@.channel_id,
                    ),
                    spec_session_outgoing(s0, now as int).len() == m,
                    outbound_model(out@) == spec_tick_outgoing(sessions0.take(i as int), now as int)
                        + spec_session_outgoing(s0, now as int).take(t as int),
                decreases m - t,
            {
                let ghost before_out: Seq<Outbound> = out@;
                let d: Vec<u8> = encode_frame(&frames[t]);
                out.push(Outbound { peer, datagram: d });
                proof {
                    let so = spec_session_outgoing(s0, now as int);
                    let prefix_out = spec_tick_outgoing(sessions0.take(i as int), now as int);
                    let fm = crate::channel::frames_model(frames@);
                    assert(outbound_model(before_out).len() == before_out.len());
                    assert(so.take(t as int).len() == t);
                    assert(prefix_out.len() + t == before_out.len());
                    assert(out@ == before_out.push(Outbound { peer, datagram: d }));
                    assert(fm[t as int] == frames@[t as int]@);
                    assert(so[t as int] == (OutboundModel {
                        peer: s0.peer,
                        datagram: spec_encode_frame(fm[t as int]),
                    }));
                    assert(out@.last()@ == so[t as int]);
                    assert forall|q: int| 0 <= q < out@.len() implies outbound_model(out@)[q]
                        == (prefix_out + so.take(t + 1))[q] by {
                        if q < before_out.len() {
                            assert(outbound_model(out@)[q] == outbound_model(before_out)[q]);
                            assert(outbound_model(before_out)[q] == (prefix_out + so.take(
                                t as int,
                            ))[q]);
                            if q >= prefix_out.len() {
                                assert(so.take(t as int)[q - prefix_out.len()] == so[q
                                    - prefix_out.len()]);
                                assert(so.take(t + 1)[q - prefix_out.len()] == so[q
                                    - prefix_out.len()]);
                            }
                        } else {
                            assert(q == before_out.len());
                            assert(outbound_model(out@)[q] == out@.last()@);
                        }
                    }
                    assert(outbound_model(out@) =~= prefix_out + so.take(t + 1));
                }
                t = t + 1;
            }
            self.registry.sessions.insert(i, session);
            proof {
                let so = spec_session_outgoing(s0, now as int);
                assert(so.take(m as int) =~= so);
                assert(sessions0.take(i + 1).drop_last() =~= sessions0.take(i as int));
                assert(sessions0.take(i + 1).last() == sessions0[i as int]);
                assert(outbound_model(out@) =~= spec_tick_outgoing(
                    sessions0.take(i + 1),
                    now as int,
                ));
                assert forall|j: int|
                    0 <= j < n && j != i implies self.registry.sessions@[j]
                    == before_sessions[j] by {
                    if j < i {
                        assert(before_sessions.remove(i as int)[j] == before_sessions[j]);
                    } else {
                        assert(before_sessions.remove(i as int)[j - 1] == before_sessions[j]);
                    }
                }
            }
            i = i + 1;
        }
        proof {
            assert(sessions0.take(n as int) =~= sessions0);
            assert forall|j: int| 0 <= j < n implies (#[trigger] self.registry.sessions@[j]).wf()
                && self.registry.sessions@[j].send@.channel_id == CHANNEL_RELIABLE by {
                assert(sessions0[j].wf());
                assert(self.registry.sessions@[j].recv == sessions0[j].recv);
            }
            assert forall|a: int, b: int|
                0 <= a < b < n implies self.registry.sessions@[a].client_id
                != self.registry.sessions@[b].client_id by {
                assert(sessions0[a].client_id != sessions0[b].client_id);
            }
        }
        out
    }

    /// Tears one client's session down and discards its channel state: no
    /// retransmission for it continues past this point.
    pub fn disconnect_client(&mut self, client_id: u64)
        requires
            old(self).wf(),
        ensures
            final(self).wf(),
            final(self).auth == old(self).auth,
            final(self).control == old(self).control,
            final(self).retransmit_after == old(self).retransmit_after,
            !old(self).registry.contains_spec(client_id) ==> final(self).registry.sessions@ == old(
                self,
            ).registry.sessions@,
            old(self).registry.contains_spec(client_id) ==> exists|i: int|
                0 <= i < old(self).registry.sessions@.len() && (#[trigger] old(
                    self,
                ).registry.sessions@[i]).client_id == client_id && final(self).registry.sessions@
                    == old(self).registry.sessions@.remove(i),
    {
        self.registry.remove(client_id);
        proof {
            if old(self).registry.contains_spec(client_id) {
                let i = choose|i: int|
                    0 <= i < old(self).registry.sessions@.len() && (#[trigger] old(
                        self,
                    ).registry.sessions@[i]).client_id == client_id && self.registry.sessions@
                        == old(self).registry.sessions@.remove(i);
                assert forall|j: int|
                    0 <= j < self.registry.sessions@.len() implies (#[trigger] self
                        .registry.sessions@[j]).send@.channel_id == CHANNEL_RELIABLE by {
                    let oj: int = if j < i {
                        j
                    } else {
                        j + 1
                    };
                    assert(self.registry.sessions@[j] == old(self).registry.sessions@[oj]);
                }
            }
        }
    }
}

} // verus!
