use netchan::channel::{IngestVerdict, ReceiveChannel, SendChannel, UnreliableChannel};
use netchan::codec::{decode_message, encode_message, Message};
use netchan::wire::{Frame, CHANNEL_RELIABLE};

fn reliable_frame(sequence: u16, payload: Vec<u8>) -> Frame {
    Frame { channel_id: CHANNEL_RELIABLE, sequence, payload }
}

fn message_payload(i: u32) -> Vec<u8> {
    encode_message(&Message::Ping(i))
}

#[test]
fn in_order_frames_deliver_immediately() {
    let mut rc = ReceiveChannel::new();
    for i in 0..5u32 {
        let (delivered, verdict) = rc.ingest(reliable_frame(i as u16, message_payload(i)));
        assert_eq!(verdict, IngestVerdict::Delivered);
        assert_eq!(delivered, vec![message_payload(i)]);
    }
    assert_eq!(rc.next_expected(), 5);
}

#[test]
fn reordered_duplicated_frames_deliver_in_send_order_exactly_once() {
    let mut rc = ReceiveChannel::new();
    let mut output: Vec<Vec<u8>> = Vec::new();

    let (d, v) = rc.ingest(reliable_frame(2, message_payload(2)));
    assert_eq!(v, IngestVerdict::Buffered);
    output.extend(d);

    let (d, v) = rc.ingest(reliable_frame(0, message_payload(0)));
    assert_eq!(v, IngestVerdict::Delivered);
    output.extend(d);

    let (d, v) = rc.ingest(reliable_frame(2, message_payload(2)));
    assert_eq!(v, IngestVerdict::Duplicate);
    output.extend(d);

    let (d, v) = rc.ingest(reliable_frame(1, message_payload(1)));
    assert_eq!(v, IngestVerdict::Delivered);
    output.extend(d);

    let (d, v) = rc.ingest(reliable_frame(4, message_payload(4)));
    assert_eq!(v, IngestVerdict::Buffered);
    output.extend(d);

    let (d, v) = rc.ingest(reliable_frame(3, message_payload(3)));
    assert_eq!(v, IngestVerdict::Delivered);
    output.extend(d);

    let expected: Vec<Vec<u8>> = (0..5u32).map(message_payload).collect();
    assert_eq!(output, expected);
    assert_eq!(rc.next_expected(), 5);
}

#[test]
fn reingesting_a_delivered_frame_changes_nothing() {
    let mut rc = ReceiveChannel::new();
    let (d, v) = rc.ingest(reliable_frame(0, message_payload(0)));
    assert_eq!(v, IngestVerdict::Delivered);
    assert_eq!(d.len(), 1);

    let (d, v) = rc.ingest(reliable_frame(0, message_payload(0)));
    assert_eq!(v, IngestVerdict::Duplicate);
    assert!(d.is_empty());
    assert_eq!(rc.next_expected(), 1);

    let (d, v) = rc.ingest(reliable_frame(1, message_payload(1)));
    assert_eq!(v, IngestVerdict::Delivered);
    assert_eq!(d, vec![message_payload(1)]);
}

#[test]
fn frames_beyond_the_reorder_window_are_protocol_violations() {
    let mut rc = ReceiveChannel::new();
    let (d, v) = rc.ingest(reliable_frame(100, message_payload(100)));
    assert_eq!(v, IngestVerdict::ProtocolViolation);
    assert!(d.is_empty());
    assert_eq!(rc.next_expected(), 0);

    let (_, v) = rc.ingest(reliable_frame(64, message_payload(64)));
    assert_eq!(v, IngestVerdict::Buffered);
    let (_, v) = rc.ingest(reliable_frame(65, message_payload(65)));
    assert_eq!(v, IngestVerdict::ProtocolViolation);
}

#[test]
fn sequence_numbers_wrap_and_order_survives_the_wrap() {
    let mut rc = ReceiveChannel::new();
    let payload = |i: u32| encode_message(&Message::Ping(i % 1000));
    for i in 0..65536u32 {
        let (d, v) = rc.ingest(reliable_frame(i as u16, payload(i)));
        assert_eq!(v, IngestVerdict::Delivered);
        assert_eq!(d.len(), 1);
    }
    assert_eq!(rc.next_expected(), 0);

    // A frame delivered before the wrap is older, not newer.
    let (d, v) = rc.ingest(reliable_frame(65500, payload(65500)));
    assert_eq!(v, IngestVerdict::Duplicate);
    assert!(d.is_empty());

    // The frame whose number wrapped to zero is newer and is delivered.
    let (d, v) = rc.ingest(reliable_frame(0, payload(65536)));
    assert_eq!(v, IngestVerdict::Delivered);
    assert_eq!(d, vec![payload(65536)]);
    assert_eq!(rc.next_expected(), 1);
}

#[test]
fn send_channel_assigns_sequence_numbers_in_order() {
    let mut sc = SendChannel::new(CHANNEL_RELIABLE, 10);
    for i in 0..3u32 {
        let f = sc.enqueue(message_payload(i), 0);
        assert_eq!(f.channel_id, CHANNEL_RELIABLE);
        assert_eq!(f.sequence, i as u16);
        assert_eq!(f.payload, message_payload(i));
    }
    assert_eq!(sc.next_index(), 3);
}

#[test]
fn cumulative_ack_releases_pending_frames() {
    let mut sc = SendChannel::new(CHANNEL_RELIABLE, 10);
    sc.enqueue(message_payload(0), 0);
    sc.enqueue(message_payload(1), 0);
    sc.enqueue(message_payload(2), 0);

    // Acknowledge everything through sequence number 1.
    sc.acknowledge(1);
    // Only the frame with sequence 2 is still due after the interval.
    let due = sc.retransmissions(10);
    assert_eq!(due.len(), 1);
    assert_eq!(due[0].sequence, 2);

    // A stale acknowledgement changes nothing.
    sc.acknowledge(30000);
    let due = sc.retransmissions(20);
    assert_eq!(due.len(), 1);
    assert_eq!(due[0].sequence, 2);
}

#[test]
fn retransmission_waits_a_full_interval_and_restamps() {
    let mut sc = SendChannel::new(CHANNEL_RELIABLE, 10);
    sc.enqueue(message_payload(9), 100);

    // Not yet due.
    assert!(sc.retransmissions(105).is_empty());
    // Due exactly at the interval.
    let due = sc.retransmissions(110);
    assert_eq!(due.len(), 1);
    assert_eq!(due[0].payload, message_payload(9));
    // Restamped: not due again until another interval passes.
    assert!(sc.retransmissions(115).is_empty());
    let due = sc.retransmissions(120);
    assert_eq!(due.len(), 1);
}

#[test]
fn unreliable_channel_passes_frames_straight_through() {
    let mut uc = UnreliableChannel::new();
    let f = uc.enqueue(2, vec![1, 2, 3]);
    assert_eq!(f.sequence, 0);
    let g = uc.enqueue(2, vec![4]);
    assert_eq!(g.sequence, 1);
    assert_eq!(UnreliableChannel::deliver(f), vec![1, 2, 3]);
}

#[test]
fn delivered_payloads_decode_back_to_the_sent_messages() {
    let mut rc = ReceiveChannel::new();
    let sent = Message::Pong(41);
    let (d, _) = rc.ingest(reliable_frame(0, encode_message(&sent)));
    assert_eq!(d.len(), 1);
    assert_eq!(decode_message(&d[0]), Ok(sent));
}
