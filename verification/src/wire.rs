//! The wire unit: a frame carrying one channel id, one sequence number and
//! an opaque payload, and its datagram encoding.
//!
//! A datagram is `channel_id` (one byte), `sequence` (two little-endian
//! bytes), then the payload. Any datagram of at least three bytes decodes to
//! exactly one frame, and every frame's encoding is such a datagram, so the
//! frame layer never confuses distinct frames.

use crate::bytes::{lemma_u16_from_le_identity, lemma_u16_le_identity, push_u16_le, read_u16_le,
    u16_from_le, u16_le};
use crate::codec::DecodeError;
use vstd::prelude::*;

verus! {

/// The control channel: handshake and acknowledgement messages, sent
/// unreliably and outside any sequence window.
pub const CHANNEL_CONTROL: u8 = 0;

/// The reliable-ordered channel: exactly-once, in-order delivery.
pub const CHANNEL_RELIABLE: u8 = 1;

/// The unreliable channel: immediate delivery in arrival order, with
/// drops and duplicates visible to the application.
pub const CHANNEL_UNRELIABLE: u8 = 2;

/// One wire frame.
pub struct Frame {
    pub channel_id: u8,
    pub sequence: u16,
    pub payload: Vec<u8>,
}

/// The mathematical image of a frame.
pub struct FrameModel {
    pub channel_id: u8,
    pub sequence: u16,
    pub payload: Seq<u8>,
}

impl View for Frame {
    type V = FrameModel;

    open spec fn view(&self) -> FrameModel {
        FrameModel {
            channel_id: self.channel_id,
            sequence: self.sequence,
            payload: self.payload@,
        }
    }
}

/// The datagram encoding of a frame.
pub open spec fn spec_encode_frame(f: FrameModel) -> Seq<u8> {
    seq![f.channel_id] + u16_le(f.sequence) + f.payload
}

/// What decoding a datagram yields: the unique frame it encodes, or
/// `Truncated` when it is shorter than a frame header.
pub open spec fn spec_decode_frame(b: Seq<u8>) -> Result<FrameModel, DecodeError> {
    if b.len() >= 3 {
        Ok(FrameModel {
            channel_id: b[0],
            sequence: u16_from_le(b.subrange(1, 3)) as u16,
            payload: b.subrange(3, b.len() as int),
        })
    } else {
        Err(DecodeError::Truncated)
    }
}

/// Decoding an encoded frame yields the original frame.
pub proof fn lemma_frame_round_trip(f: FrameModel)
    ensures
        spec_decode_frame(spec_encode_frame(f)) == Ok::<FrameModel, DecodeError>(f),
{
    let b = spec_encode_frame(f);
    lemma_u16_le_identity(f.sequence);
    assert(b.subrange(1, 3) =~= u16_le(f.sequence));
    assert(b.subrange(3, b.len() as int) =~= f.payload);
}

/// Decoding succeeds only on the exact encoding of the frame it yields.
pub proof fn lemma_frame_decode_sound(b: Seq<u8>, f: FrameModel)
    requires
        spec_decode_frame(b) == Ok::<FrameModel, DecodeError>(f),
    ensures
        b == spec_encode_frame(f),
{
    lemma_u16_from_le_identity(b.subrange(1, 3));
    assert(b =~= spec_encode_frame(f));
}

/// Encodes a frame into one datagram.
pub fn encode_frame(f: &Frame) -> (r: Vec<u8>)
    ensures
        r@ == spec_encode_frame(f@),
{
    let mut v: Vec<u8> = Vec::new();
    v.push(f.channel_id);
    push_u16_le(&mut v, f.sequence);
    let n: usize = f.payload.len();
    let mut i: usize = 0;
    while i < n
        invariant
            n == f.payload@.len(),
            i <= n,
            v@ == seq![f.channel_id] + u16_le(f.sequence) + f.payload@.subrange(0, i as int),
        decreases n - i,
    {
        let byte: u8 = f.payload[i];
        v.push(byte);
        proof {
            assert(v@ =~= seq![f.channel_id] + u16_le(f.sequence) + f.payload@.subrange(
                0,
                i + 1,
            ));
        }
        i = i + 1;
    }
    proof {
        assert(f.payload@.subrange(0, n as int) =~= f.payload@);
        assert(v@ =~= spec_encode_frame(f@));
    }
    v
}

/// Decodes one datagram into a frame, or reports it too short.
pub fn decode_frame(b: &Vec<u8>) -> (r: Result<Frame, DecodeError>)
    ensures
        ({
            match r {
                Ok(f) => spec_decode_frame(b@) == Ok::<FrameModel, DecodeError>(f@),
                Err(e) => spec_decode_frame(b@) == Err::<FrameModel, DecodeError>(e),
            }
        }),
{
    let n: usize = b.len();
    if n < 3 {
        return Err(DecodeError::Truncated);
    }
    let channel_id: u8 = b[0];
    let sequence: u16 = read_u16_le(b, 1);
    let mut payload: Vec<u8> = Vec::new();
    let mut i: usize = 3;
    while i < n
        invariant
            n == b@.len(),
            3 <= i <= n,
            payload@ == b@.subrange(3, i as int),
        decreases n - i,
    {
        let byte: u8 = b[i];
        payload.push(byte);
        proof {
            assert(payload@ =~= b@.subrange(3, i + 1));
        }
        i = i + 1;
    }
    proof {
        assert(payload@ =~= b@.subrange(3, n as int));
    }
    Ok(Frame { channel_id, sequence, payload })
}

} // verus!
