//! The message codec: a compact, self-describing binary encoding for the
//! application messages and for the control-plane messages of the handshake
//! and the reliability layer.
//!
//! Every encoding is a discriminant tag byte followed by the variant's
//! fields in little-endian order. Decoding is total over byte strings: it
//! yields the unique message whose encoding the input is, or a
//! [`DecodeError`] saying why no such message exists. A malformed payload is
//! a local, recoverable condition: callers drop the frame and carry on.

use crate::bytes::{
    lemma_u16_le_identity, lemma_u32_le_identity, lemma_u64_le_identity, push_u16_le, push_u32_le,
    push_u64_le, read_u16_le, read_u32_le, read_u64_le, u16_le, u32_le, u64_le,
};
use vstd::prelude::*;

verus! {

/// An application-level message. It has no identity beyond its encoded
/// bytes and is immutable once constructed.
#[derive(Clone, Copy, Debug, PartialEq, Eq, Structural)]
pub enum Message {
    /// A keep-alive probe carrying a client-chosen counter.
    Ping(u32),
    /// The echo of a probe, carrying the probed counter unchanged.
    Pong(u32),
}

/// A control-plane message: the connect/accept/reject handshake plus the
/// acknowledgement that drives the reliability layer.
#[derive(Clone, Copy, Debug, PartialEq, Eq, Structural)]
pub enum ControlMessage {
    /// Client asks for a session, naming its protocol and a chosen id.
    ConnectRequest { protocol_id: u32, client_id: u64 },
    /// Server grants a session and echoes the assigned id.
    ConnectAccept { client_id: u64 },
    /// Server refuses a session, with a reason code.
    ConnectReject { reason_code: u8 },
    /// Receiver reports the highest contiguously received sequence number.
    Ack { sequence: u16 },
}

/// Why a byte string is not the encoding of any message.
#[derive(Clone, Copy, Debug, PartialEq, Eq, Structural)]
pub enum DecodeError {
    /// The input ends before the encoded fields do.
    Truncated,
    /// The discriminant tag names no known variant.
    UnknownTag,
    /// The input continues past the encoded fields.
    Excess,
}

pub const TAG_PING: u8 = 0;

pub const TAG_PONG: u8 = 1;

pub const TAG_CONNECT_REQUEST: u8 = 0;

pub const TAG_CONNECT_ACCEPT: u8 = 1;

pub const TAG_CONNECT_REJECT: u8 = 2;

pub const TAG_ACK: u8 = 3;

/// The encoding of an application message: tag byte, then the counter.
pub open spec fn spec_encode_message(m: Message) -> Seq<u8> {
    match m {
        Message::Ping(c) => seq![TAG_PING] + u32_le(c),
        Message::Pong(c) => seq![TAG_PONG] + u32_le(c),
    }
}

/// The error decoding gives for a byte string that encodes no message.
pub open spec fn spec_message_decode_err(b: Seq<u8>) -> DecodeError {
    if b.len() == 0 {
        DecodeError::Truncated
    } else if b[0] != TAG_PING && b[0] != TAG_PONG {
        DecodeError::UnknownTag
    } else if b.len() < 5 {
        DecodeError::Truncated
    } else {
        DecodeError::Excess
    }
}

/// What decoding a byte string yields.
pub open spec fn spec_decode_message(b: Seq<u8>) -> Result<Message, DecodeError> {
    if b.len() == 5 && b[0] == TAG_PING {
        Ok(Message::Ping(crate::bytes::u32_from_le(b.subrange(1, 5)) as u32))
    } else if b.len() == 5 && b[0] == TAG_PONG {
        Ok(Message::Pong(crate::bytes::u32_from_le(b.subrange(1, 5)) as u32))
    } else {
        Err(spec_message_decode_err(b))
    }
}

/// Decoding an encoded application message yields the original message.
pub proof fn lemma_message_round_trip(m: Message)
    ensures
        spec_decode_message(spec_encode_message(m)) == Ok::<Message, DecodeError>(m),
{
    match m {
        Message::Ping(c) => {
            lemma_u32_le_identity(c);
            assert(spec_encode_message(m).subrange(1, 5) =~= u32_le(c));
        },
        Message::Pong(c) => {
            lemma_u32_le_identity(c);
            assert(spec_encode_message(m).subrange(1, 5) =~= u32_le(c));
        },
    }
}

/// Decoding succeeds only on the exact encoding of the message it yields.
pub proof fn lemma_message_decode_sound(b: Seq<u8>, m: Message)
    requires
        spec_decode_message(b) == Ok::<Message, DecodeError>(m),
    ensures
        b == spec_encode_message(m),
{
    crate::bytes::lemma_u32_from_le_identity(b.subrange(1, 5));
    assert(b =~= spec_encode_message(m));
}

/// Encodes an application message.
pub fn encode_message(m: &Message) -> (r: Vec<u8>)
    ensures
        r@ == spec_encode_message(*m),
{
    let mut v: Vec<u8> = Vec::new();
    match m {
        Message::Ping(c) => {
            v.push(TAG_PING);
            push_u32_le(&mut v, *c);
        },
        Message::Pong(c) => {
            v.push(TAG_PONG);
            push_u32_le(&mut v, *c);
        },
    }
    proof {
        assert(v@ =~= spec_encode_message(*m));
    }
    v
}

/// Decodes an application message, or says why the bytes encode none.
pub fn decode_message(b: &Vec<u8>) -> (r: Result<Message, DecodeError>)
    ensures
        r == spec_decode_message(b@),
{
    if b.len() == 0 {
        return Err(DecodeError::Truncated);
    }
    let tag: u8 = b[0];
    if tag != TAG_PING && tag != TAG_PONG {
        return Err(DecodeError::UnknownTag);
    }
    if b.len() < 5 {
        return Err(DecodeError::Truncated);
    }
    if b.len() > 5 {
        return Err(DecodeError::Excess);
    }
    let c: u32 = read_u32_le(b, 1);
    if tag == TAG_PING {
        Ok(Message::Ping(c))
    } else {
        Ok(Message::Pong(c))
    }
}

/// The encoding of a control message: tag byte, then the variant's fields.
pub open spec fn spec_encode_control(m: ControlMessage) -> Seq<u8> {
    match m {
        ControlMessage::ConnectRequest { protocol_id, client_id } => seq![TAG_CONNECT_REQUEST]
            + u32_le(protocol_id) + u64_le(client_id),
        ControlMessage::ConnectAccept { client_id } => seq![TAG_CONNECT_ACCEPT]
            + u64_le(client_id),
        ControlMessage::ConnectReject { reason_code } => seq![TAG_CONNECT_REJECT]
            + seq![reason_code],
        ControlMessage::Ack { sequence } => seq![TAG_ACK] + u16_le(sequence),
    }
}

/// The byte length of the encoding selected by a control tag.
pub open spec fn spec_control_len(tag: u8) -> int {
    if tag == TAG_CONNECT_REQUEST {
        13
    } else if tag == TAG_CONNECT_ACCEPT {
        9
    } else if tag == TAG_CONNECT_REJECT {
        2
    } else {
        3
    }
}

/// The error decoding gives for a byte string that encodes no control
/// message.
pub open spec fn spec_control_decode_err(b: Seq<u8>) -> DecodeError {
    if b.len() == 0 {
        DecodeError::Truncated
    } else if b[0] > TAG_ACK {
        DecodeError::UnknownTag
    } else if b.len() < spec_control_len(b[0]) {
        DecodeError::Truncated
    } else {
        DecodeError::Excess
    }
}

/// What decoding a byte string as a control message yields.
pub open spec fn spec_decode_control(b: Seq<u8>) -> Result<ControlMessage, DecodeError> {
    if b.len() == 13 && b[0] == TAG_CONNECT_REQUEST {
        Ok(ControlMessage::ConnectRequest {
            protocol_id: crate::bytes::u32_from_le(b.subrange(1, 5)) as u32,
            client_id: crate::bytes::u64_from_le(b.subrange(5, 13)) as u64,
        })
    } else if b.len() == 9 && b[0] == TAG_CONNECT_ACCEPT {
        Ok(ControlMessage::ConnectAccept {
            client_id: crate::bytes::u64_from_le(b.subrange(1, 9)) as u64,
        })
    } else if b.len() == 2 && b[0] == TAG_CONNECT_REJECT {
        Ok(ControlMessage::ConnectReject { reason_code: b[1] })
    } else if b.len() == 3 && b[0] == TAG_ACK {
        Ok(ControlMessage::Ack { sequence: crate::bytes::u16_from_le(b.subrange(1, 3)) as u16 })
    } else {
        Err(spec_control_decode_err(b))
    }
}

/// Decoding an encoded control message yields the original message.
pub proof fn lemma_control_round_trip(m: ControlMessage)
    ensures
        spec_decode_control(spec_encode_control(m)) == Ok::<ControlMessage, DecodeError>(m),
{
    let b = spec_encode_control(m);
    match m {
        ControlMessage::ConnectRequest { protocol_id, client_id } => {
            lemma_u32_le_identity(protocol_id);
            lemma_u64_le_identity(client_id);
            assert(b.subrange(1, 5) =~= u32_le(protocol_id));
            assert(b.subrange(5, 13) =~= u64_le(client_id));
        },
        ControlMessage::ConnectAccept { client_id } => {
            lemma_u64_le_identity(client_id);
            assert(b.subrange(1, 9) =~= u64_le(client_id));
        },
        ControlMessage::ConnectReject { reason_code } => {},
        ControlMessage::Ack { sequence } => {
            lemma_u16_le_identity(sequence);
            assert(b.subrange(1, 3) =~= u16_le(sequence));
        },
    }
}

/// Decoding succeeds only on the exact encoding of the control message it
/// yields.
pub proof fn lemma_control_decode_sound(b: Seq<u8>, m: ControlMessage)
    requires
        spec_decode_control(b) == Ok::<ControlMessage, DecodeError>(m),
    ensures
        b == spec_encode_control(m),
{
    if b.len() == 13 && b[0] == TAG_CONNECT_REQUEST {
        crate::bytes::lemma_u32_from_le_identity(b.subrange(1, 5));
        crate::bytes::lemma_u64_from_le_identity(b.subrange(5, 13));
    } else if b.len() == 9 && b[0] == TAG_CONNECT_ACCEPT {
        crate::bytes::lemma_u64_from_le_identity(b.subrange(1, 9));
    } else if b.len() == 3 && b[0] == TAG_ACK {
        crate::bytes::lemma_u16_from_le_identity(b.subrange(1, 3));
    }
    assert(b =~= spec_encode_control(m));
}

/// Encodes a control message.
pub fn encode_control(m: &ControlMessage) -> (r: Vec<u8>)
    ensures
        r@ == spec_encode_control(*m),
{
    let mut v: Vec<u8> = Vec::new();
    match m {
        ControlMessage::ConnectRequest { protocol_id, client_id } => {
            v.push(TAG_CONNECT_REQUEST);
            push_u32_le(&mut v, *protocol_id);
            push_u64_le(&mut v, *client_id);
        },
        ControlMessage::ConnectAccept { client_id } => {
            v.push(TAG_CONNECT_ACCEPT);
            push_u64_le(&mut v, *client_id);
        },
        ControlMessage::ConnectReject { reason_code } => {
            v.push(TAG_CONNECT_REJECT);
            v.push(*reason_code);
        },
        ControlMessage::Ack { sequence } => {
            v.push(TAG_ACK);
            push_u16_le(&mut v, *sequence);
        },
    }
    proof {
        assert(v@ =~= spec_encode_control(*m));
    }
    v
}

/// Decodes a control message, or says why the bytes encode none.
pub fn decode_control(b: &Vec<u8>) -> (r: Result<ControlMessage, DecodeError>)
    ensures
        r == spec_decode_control(b@),
{
    if b.len() == 0 {
        return Err(DecodeError::Truncated);
    }
    let tag: u8 = b[0];
    if tag > TAG_ACK {
        return Err(DecodeError::UnknownTag);
    }
    if tag == TAG_CONNECT_REQUEST {
        if b.len() < 13 {
            return Err(DecodeError::Truncated);
        }
        if b.len() > 13 {
            return Err(DecodeError::Excess);
        }
        let protocol_id: u32 = read_u32_le(b, 1);
        let client_id: u64 = read_u64_le(b, 5);
        Ok(ControlMessage::ConnectRequest { protocol_id, client_id })
    } else if tag == TAG_CONNECT_ACCEPT {
        if b.len() < 9 {
            return Err(DecodeError::Truncated);
        }
        if b.len() > 9 {
            return Err(DecodeError::Excess);
        }
        let client_id: u64 = read_u64_le(b, 1);
        Ok(ControlMessage::ConnectAccept { client_id })
    } else if tag == TAG_CONNECT_REJECT {
        if b.len() < 2 {
            return Err(DecodeError::Truncated);
        }
        if b.len() > 2 {
            return Err(DecodeError::Excess);
        }
        Ok(ControlMessage::ConnectReject { reason_code: b[1] })
    } else {
        if b.len() < 3 {
            return Err(DecodeError::Truncated);
        }
        if b.len() > 3 {
            return Err(DecodeError::Excess);
        }
        let sequence: u16 = read_u16_le(b, 1);
        Ok(ControlMessage::Ack { sequence })
    }
}

} // verus!
