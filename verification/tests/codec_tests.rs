use netchan::codec::{
    decode_control, decode_message, encode_control, encode_message, ControlMessage, DecodeError,
    Message,
};
use netchan::wire::{decode_frame, encode_frame, Frame};

#[test]
fn message_encoding_is_tag_then_counter() {
    assert_eq!(encode_message(&Message::Ping(0)), vec![0, 0, 0, 0, 0]);
    assert_eq!(encode_message(&Message::Pong(7)), vec![1, 7, 0, 0, 0]);
    assert_eq!(
        encode_message(&Message::Ping(0x0403_0201)),
        vec![0, 0x01, 0x02, 0x03, 0x04]
    );
}

#[test]
fn message_round_trip() {
    let cases = vec![
        Message::Ping(0),
        Message::Pong(0),
        Message::Ping(5),
        Message::Pong(u32::MAX),
        Message::Ping(0xDEAD_BEEF),
    ];
    for m in cases {
        let bytes = encode_message(&m);
        assert_eq!(decode_message(&bytes), Ok(m));
    }
}

#[test]
fn message_decode_rejects_malformed() {
    assert_eq!(decode_message(&vec![]), Err(DecodeError::Truncated));
    assert_eq!(decode_message(&vec![9, 0, 0, 0, 0]), Err(DecodeError::UnknownTag));
    assert_eq!(decode_message(&vec![0, 1, 2]), Err(DecodeError::Truncated));
    assert_eq!(decode_message(&vec![1, 1, 2, 3, 4, 5]), Err(DecodeError::Excess));
}

#[test]
fn control_round_trip() {
    let cases = vec![
        ControlMessage::ConnectRequest { protocol_id: 0, client_id: 0 },
        ControlMessage::ConnectRequest { protocol_id: 77, client_id: u64::MAX },
        ControlMessage::ConnectAccept { client_id: 0x1122_3344_5566_7788 },
        ControlMessage::ConnectReject { reason_code: 1 },
        ControlMessage::Ack { sequence: 65535 },
    ];
    for m in cases {
        let bytes = encode_control(&m);
        assert_eq!(decode_control(&bytes), Ok(m));
    }
}

#[test]
fn control_decode_rejects_malformed() {
    assert_eq!(decode_control(&vec![]), Err(DecodeError::Truncated));
    assert_eq!(decode_control(&vec![4, 0]), Err(DecodeError::UnknownTag));
    assert_eq!(decode_control(&vec![0, 1, 2, 3]), Err(DecodeError::Truncated));
    assert_eq!(decode_control(&vec![2, 1, 9]), Err(DecodeError::Excess));
    assert_eq!(decode_control(&vec![3, 1]), Err(DecodeError::Truncated));
}

#[test]
fn frame_round_trip() {
    let f = Frame { channel_id: 1, sequence: 0xBEEF, payload: vec![10, 20, 30] };
    let bytes = encode_frame(&f);
    assert_eq!(bytes, vec![1, 0xEF, 0xBE, 10, 20, 30]);
    let g = decode_frame(&bytes).unwrap();
    assert_eq!(g.channel_id, 1);
    assert_eq!(g.sequence, 0xBEEF);
    assert_eq!(g.payload, vec![10, 20, 30]);
}

#[test]
fn frame_decode_rejects_short_datagrams() {
    assert_eq!(decode_frame(&vec![]).err(), Some(DecodeError::Truncated));
    assert_eq!(decode_frame(&vec![1, 2]).err(), Some(DecodeError::Truncated));
    let g = decode_frame(&vec![2, 5, 0]).unwrap();
    assert_eq!(g.sequence, 5);
    assert_eq!(g.payload.len(), 0);
}
