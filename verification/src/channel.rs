//! The channel layer: the reliable-ordered receive window and the
//! reliable send queue with retransmission, plus the pass-through
//! unreliable channel.
//!
//! Sequence numbers live in a circular 16-bit space and are compared
//! modularly: the distance from the receiver's next expected number,
//! taken modulo the space, classifies every incoming frame. A frame at
//! distance zero is delivered together with the contiguous run buffered
//! behind it; a frame within the reorder window is buffered; a frame
//! beyond the window but in the forward half-space is a protocol
//! violation and is dropped; a frame in the backward half-space is an
//! already-seen duplicate and is dropped silently.

use crate::bytes::copy_bytes;
use crate::wire::{Frame, FrameModel};
use vstd::arithmetic::div_mod::{
    lemma_add_mod_noop, lemma_fundamental_div_mod, lemma_mod_division_less_than_divisor,
    lemma_mod_multiples_vanish, lemma_small_mod,
};
use vstd::prelude::*;

verus! {

/// Width of the reorder window: how far ahead of the next expected
/// sequence number a frame may run and still be buffered.
pub const REORDER_WINDOW: usize = 64;

/// Half of the sequence space; distances at or past it are backward.
pub const SEQ_HALF: u32 = 32768;

/// How the receive channel disposed of one ingested frame.
#[derive(Clone, Copy, Debug, PartialEq, Eq, Structural)]
pub enum IngestVerdict {
    /// The frame was next in order: it and any contiguous run behind it
    /// were handed to the application.
    Delivered,
    /// The frame ran ahead of the next expected number and was buffered.
    Buffered,
    /// The frame was already delivered or already buffered; it was
    /// discarded with no effect on the delivered stream.
    Duplicate,
    /// The frame's sequence number lies beyond the reorder window: a
    /// protocol violation, and the frame was dropped.
    ProtocolViolation,
}

/// The mathematical image of a reliable-ordered receive channel: the
/// next expected sequence number and the reorder buffer, slot `j`
/// holding the payload for sequence number `next + 1 + j` when present.
pub struct RecvModel {
    pub next: int,
    pub slots: Seq<Option<Seq<u8>>>,
}

/// A well-formed receive model: the next expected number lies in the
/// sequence space and the buffer spans exactly the reorder window.
pub open spec fn recv_wf(m: RecvModel) -> bool {
    &&& 0 <= m.next < 65536
    &&& m.slots.len() == REORDER_WINDOW
}

/// The forward modular distance from `next` to `sequence`.
pub open spec fn seq_delta(sequence: int, next: int) -> int {
    (sequence + 65536 - next) % 65536
}

/// Length of the contiguous run of occupied slots at the front of the
/// buffer.
pub open spec fn lead_run(slots: Seq<Option<Seq<u8>>>) -> int
    decreases slots.len(),
{
    if slots.len() == 0 {
        0
    } else if slots[0] is None {
        0
    } else {
        1 + lead_run(slots.drop_first())
    }
}

/// The leading run is a maximal all-occupied prefix.
pub proof fn lemma_lead_run(slots: Seq<Option<Seq<u8>>>)
    ensures
        0 <= lead_run(slots) <= slots.len(),
        forall|i: int| 0 <= i < lead_run(slots) ==> slots[i] is Some,
        lead_run(slots) < slots.len() ==> slots[lead_run(slots)] is None,
    decreases slots.len(),
{
    if slots.len() != 0 && slots[0] is Some {
        lemma_lead_run(slots.drop_first());
        assert forall|i: int| 0 <= i < lead_run(slots) implies slots[i] is Some by {
            if i > 0 {
                assert(slots.drop_first()[i - 1] is Some);
            }
        }
    }
}

/// The buffer advanced by `k` slots: everything shifts toward the
/// front and vacated slots are empty.
pub open spec fn shift_slots(slots: Seq<Option<Seq<u8>>>, k: int) -> Seq<Option<Seq<u8>>> {
    Seq::new(
        slots.len(),
        |i: int|
            if i + k < slots.len() {
                slots[i + k]
            } else {
                None
            },
    )
}

/// The payloads of the first `k` slots, all of which must be occupied.
pub open spec fn run_payloads(slots: Seq<Option<Seq<u8>>>, k: int) -> Seq<Seq<u8>> {
    Seq::new(
        k as nat,
        |i: int|
            match slots[i] {
                Some(p) => p,
                None => Seq::empty(),
            },
    )
}

/// The receive channel's transition on one incoming frame: the new
/// model, the payloads newly delivered to the application in order, and
/// the verdict on the frame.
pub open spec fn spec_ingest(m: RecvModel, sequence: int, payload: Seq<u8>) -> (
    RecvModel,
    Seq<Seq<u8>>,
    IngestVerdict,
)
    recommends
        recv_wf(m),
{
    let d = seq_delta(sequence, m.next);
    if d == 0 {
        let k = lead_run(m.slots);
        (
            RecvModel { next: (m.next + 1 + k) % 65536, slots: shift_slots(m.slots, k + 1) },
            seq![payload] + run_payloads(m.slots, k),
            IngestVerdict::Delivered,
        )
    } else if d <= REORDER_WINDOW {
        if m.slots[d - 1] is Some {
            (m, Seq::empty(), IngestVerdict::Duplicate)
        } else {
            (
                RecvModel { next: m.next, slots: m.slots.update(d - 1, Some(payload)) },
                Seq::empty(),
                IngestVerdict::Buffered,
            )
        }
    } else if d < SEQ_HALF {
        (m, Seq::empty(), IngestVerdict::ProtocolViolation)
    } else {
        (m, Seq::empty(), IngestVerdict::Duplicate)
    }
}

/// The mathematical image of a buffer of owned payloads.
pub open spec fn slots_model(v: Seq<Option<Vec<u8>>>) -> Seq<Option<Seq<u8>>> {
    Seq::new(
        v.len(),
        |i: int|
            match v[i] {
                Some(p) => Some(p@),
                None => None,
            },
    )
}

/// The mathematical image of a list of payloads.
pub open spec fn payloads_model(v: Seq<Vec<u8>>) -> Seq<Seq<u8>> {
    Seq::new(v.len(), |i: int| v[i]@)
}

/// Incrementing before reducing modulo the space equals reducing first.
proof fn lemma_mod_incr(x: int)
    requires
        x >= 0,
    ensures
        (x % 65536 + 1) % 65536 == (x + 1) % 65536,
{
    lemma_add_mod_noop(x, 1, 65536);
    lemma_small_mod(1, 65536);
}

/// The receiving end of a reliable-ordered channel.
pub struct ReceiveChannel {
    next_sequence: u16,
    slots: Vec<Option<Vec<u8>>>,
}

impl View for ReceiveChannel {
    type V = RecvModel;

    closed spec fn view(&self) -> RecvModel {
        RecvModel { next: self.next_sequence as int, slots: slots_model(self.slots@) }
    }
}

impl ReceiveChannel {
    /// The buffer always spans the reorder window.
    pub open spec fn wf(self) -> bool {
        recv_wf(self@)
    }

    /// A fresh channel: expecting sequence number zero, buffer empty.
    pub fn new() -> (c: ReceiveChannel)
        ensures
            c.wf(),
            c@.next == 0,
            c@.slots == Seq::new(REORDER_WINDOW as nat, |i: int| None::<Seq<u8>>),
    {
        let mut slots: Vec<Option<Vec<u8>>> = Vec::new();
        let mut i: usize = 0;
        while i < REORDER_WINDOW
            invariant
                i <= REORDER_WINDOW,
                slots@.len() == i,
                forall|j: int| 0 <= j < i ==> slots@[j] is None,
            decreases REORDER_WINDOW - i,
        {
            slots.push(None);
            i = i + 1;
        }
        let c = ReceiveChannel { next_sequence: 0, slots };
        proof {
            assert(c@.slots =~= Seq::new(REORDER_WINDOW as nat, |i: int| None::<Seq<u8>>));
        }
        c
    }

    /// The sequence number the channel will deliver next.
    pub fn next_expected(&self) -> (r: u16)
        ensures
            r as int == self@.next,
    {
        self.next_sequence
    }

    /// Ingests one frame, returning the payloads newly delivered to the
    /// application, in order, and the verdict on the frame.
    pub fn ingest(&mut self, frame: Frame) -> (r: (Vec<Vec<u8>>, IngestVerdict))
        requires
            old(self).wf(),
        ensures
            final(self).wf(),
            ({
                let (model, delivered, verdict) = spec_ingest(
                    old(self)@,
                    frame.sequence as int,
                    frame.payload@,
                );
                final(self)@ == model && payloads_model(r.0@) == delivered && r.1 == verdict
            }),
    {
        let ghost orig: RecvModel = self@;
        let ghost pay: Seq<u8> = frame.payload@;
        let d32: u32 = ((frame.sequence as u32) + 65536 - (self.next_sequence as u32)) % 65536;
        proof {
            lemma_mod_division_less_than_divisor(
                frame.sequence as int + 65536 - self.next_sequence as int,
                65536,
            );
            assert(d32 == seq_delta(frame.sequence as int, orig.next));
        }
        if d32 == 0 {
            let Frame { channel_id: _, sequence: _, payload } = frame;
            let mut delivered: Vec<Vec<u8>> = Vec::new();
            delivered.push(payload);
            self.next_sequence = (((self.next_sequence as u32) + 1) % 65536) as u16;
            proof {
                lemma_lead_run(orig.slots);
                lemma_mod_incr(orig.next);
                assert(slots_model(self.slots@) =~= shift_slots(orig.slots, 0));
                assert(payloads_model(delivered@) =~= seq![pay] + run_payloads(orig.slots, 0));
            }
            let ghost k: int = lead_run(orig.slots);
            let ghost j: int = 0;
            while self.slots[0].is_some()
                invariant
                    0 <= j <= k,
                    k == lead_run(orig.slots),
                    recv_wf(orig),
                    k <= orig.slots.len(),
                    forall|i: int| 0 <= i < k ==> orig.slots[i] is Some,
                    k < orig.slots.len() ==> orig.slots[k] is None,
                    self.slots@.len() == REORDER_WINDOW,
                    slots_model(self.slots@) == shift_slots(orig.slots, j),
                    self.next_sequence as int == (orig.next + 1 + j) % 65536,
                    payloads_model(delivered@) == seq![pay] + run_payloads(orig.slots, j),
                decreases REORDER_WINDOW - j,
            {
                proof {
                    assert(slots_model(self.slots@)[0] == shift_slots(orig.slots, j)[0]);
                    assert(j < REORDER_WINDOW);
                    assert(orig.slots[j] is Some);
                    assert(j < k);
                }
                let ghost before: Seq<Option<Vec<u8>>> = self.slots@;
                let ghost before_out: Seq<Vec<u8>> = delivered@;
                let head: Option<Vec<u8>> = self.slots.remove(0);
                self.slots.push(None);
                let p: Vec<u8> = head.unwrap();
                delivered.push(p);
                self.next_sequence = (((self.next_sequence as u32) + 1) % 65536) as u16;
                proof {
                    lemma_mod_incr(orig.next + 1 + j);
                    assert((orig.next + 1 + j) % 65536 >= 0) by {
                        lemma_mod_division_less_than_divisor(orig.next + 1 + j, 65536);
                    }
                    assert forall|i: int| 0 <= i < REORDER_WINDOW implies slots_model(self.slots@)[i]
                        == shift_slots(orig.slots, j + 1)[i] by {
                        if i < REORDER_WINDOW - 1 {
                            assert(self.slots@[i] == before[i + 1]);
                            assert(slots_model(before)[i + 1] == shift_slots(orig.slots, j)[i + 1]);
                        } else {
                            assert(self.slots@[i] is None);
                        }
                    }
                    assert(slots_model(self.slots@) =~= shift_slots(orig.slots, j + 1));
                    assert(payloads_model(before_out).len() == before_out.len());
                    assert(run_payloads(orig.slots, j).len() == j);
                    assert(before_out.len() == 1 + j);
                    assert(delivered@ == before_out.push(p));
                    assert(run_payloads(orig.slots, j + 1).len() == j + 1);
                    assert forall|i: int| 0 <= i < delivered@.len() implies payloads_model(
                        delivered@,
                    )[i] == (seq![pay] + run_payloads(orig.slots, j + 1))[i] by {
                        if i < before_out.len() {
                            assert(delivered@[i] == before_out[i]);
                            assert(payloads_model(before_out)[i] == (seq![pay] + run_payloads(
                                orig.slots,
                                j,
                            ))[i]);
                        } else {
                            assert(delivered@[i] == p);
                            assert(head == before[0]);
                            assert(slots_model(before)[0] == shift_slots(orig.slots, j)[0]);
                            assert(shift_slots(orig.slots, j)[0] == orig.slots[j]);
                            assert(slots_model(before)[0] == Some(p@));
                            assert(orig.slots[j] == Some(p@));
                            assert(i == before_out.len() && i == j + 1);
                            assert(run_payloads(orig.slots, j + 1)[j] == p@);
                        }
                    }
                    assert(payloads_model(delivered@) =~= seq![pay] + run_payloads(
                        orig.slots,
                        j + 1,
                    ));
                }
                proof {
                    j = j + 1;
                }
            }
            proof {
                if j < REORDER_WINDOW {
                    assert(slots_model(self.slots@)[0] == shift_slots(orig.slots, j)[0]);
                    if j < k {
                        assert(orig.slots[j] is Some);
                    }
                }
                assert(j == k);
            }
            let ghost before: Seq<Option<Vec<u8>>> = self.slots@;
            let _trailing: Option<Vec<u8>> = self.slots.remove(0);
            self.slots.push(None);
            proof {
                assert forall|i: int| 0 <= i < REORDER_WINDOW implies slots_model(self.slots@)[i]
                    == shift_slots(orig.slots, k + 1)[i] by {
                    if i < REORDER_WINDOW - 1 {
                        assert(self.slots@[i] == before[i + 1]);
                        assert(slots_model(before)[i + 1] == shift_slots(orig.slots, k)[i + 1]);
                    } else {
                        assert(self.slots@[i] is None);
                    }
                }
                assert(slots_model(self.slots@) =~= shift_slots(orig.slots, k + 1));
            }
            (delivered, IngestVerdict::Delivered)
        } else if d32 <= REORDER_WINDOW as u32 {
            let idx: usize = (d32 - 1) as usize;
            if self.slots[idx].is_some() {
                proof {
                    assert(slots_model(self.slots@)[idx as int] is Some);
                    assert(payloads_model(Seq::<Vec<u8>>::empty()) =~= Seq::<Seq<u8>>::empty());
                }
                (Vec::new(), IngestVerdict::Duplicate)
            } else {
                let _vacant: Option<Vec<u8>> = self.slots.remove(idx);
                let Frame { channel_id: _, sequence: _, payload } = frame;
                self.slots.insert(idx, Some(payload));
                proof {
                    assert(slots_model(self.slots@) =~= orig.slots.update(
                        d32 - 1,
                        Some(pay),
                    ));
                    assert(payloads_model(Seq::<Vec<u8>>::empty()) =~= Seq::<Seq<u8>>::empty());
                }
                (Vec::new(), IngestVerdict::Buffered)
            }
        } else if d32 < SEQ_HALF {
            proof {
                assert(payloads_model(Seq::<Vec<u8>>::empty()) =~= Seq::<Seq<u8>>::empty());
            }
            (Vec::new(), IngestVerdict::ProtocolViolation)
        } else {
            proof {
                assert(payloads_model(Seq::<Vec<u8>>::empty()) =~= Seq::<Seq<u8>>::empty());
            }
            (Vec::new(), IngestVerdict::Duplicate)
        }
    }
}

/// A fresh receive model: expecting sequence number zero, buffer empty.
pub open spec fn init_recv_model() -> RecvModel {
    RecvModel { next: 0, slots: Seq::new(REORDER_WINDOW as nat, |i: int| None) }
}

/// The wire sequence number the sender assigns to its `i`-th message.
pub open spec fn wire_sequence(i: int) -> int {
    i % 65536
}

/// The receiver state and the cumulative delivered output after ingesting a
/// trace of arrivals. `arrivals[t]` is the send index of the frame arriving
/// at step `t`; it arrives bearing `wire_sequence(arrivals[t])` and the
/// payload `sent[arrivals[t]]`.
pub open spec fn run_receiver(sent: Seq<Seq<u8>>, arrivals: Seq<int>) -> (RecvModel, Seq<Seq<u8>>)
    decreases arrivals.len(),
{
    if arrivals.len() == 0 {
        (init_recv_model(), Seq::<Seq<u8>>::empty())
    } else {
        let prior = run_receiver(sent, arrivals.drop_last());
        let i = arrivals.last();
        let step = spec_ingest(prior.0, wire_sequence(i), sent[i]);
        (step.0, prior.1 + step.1)
    }
}

/// An arrival is honest when it is a frame the sender really sent and its
/// send index lies within half the sequence space of the receiver's
/// delivery point at the moment it arrives. Loss, duplication up to the
/// half-space, and any reordering within the reorder window all produce
/// honest traces; only a duplicate so stale that it aliases a future
/// sequence number falls outside.
pub open spec fn arrival_honest(sent: Seq<Seq<u8>>, arrivals: Seq<int>, t: int) -> bool {
    let n = run_receiver(sent, arrivals.take(t)).1.len() as int;
    &&& 0 <= arrivals[t] < sent.len()
    &&& n - 32768 <= arrivals[t] <= n + 32767
}

/// The coupling between a receiver and the sent stream: everything
/// delivered so far is exactly a prefix of the sent messages, the next
/// expected number is that prefix's length reduced to the sequence space,
/// and every buffered slot holds exactly the sent message its position
/// names.
pub open spec fn receiver_coupled(sent: Seq<Seq<u8>>, m: RecvModel, out: Seq<Seq<u8>>) -> bool {
    &&& recv_wf(m)
    &&& out.len() <= sent.len()
    &&& m.next == out.len() % 65536
    &&& out == sent.take(out.len() as int)
    &&& forall|i: int|
        0 <= i < REORDER_WINDOW && m.slots[i] is Some ==> out.len() + 1 + i < sent.len()
            && m.slots[i] == Some(sent[out.len() + 1 + i])
}

/// The modular distance between two send indices in the same half-space
/// window is their true distance, wrapped once when negative.
proof fn lemma_delta_of_indices(i: int, n: int)
    requires
        0 <= i,
        0 <= n,
        n - 32768 <= i <= n + 32767,
    ensures
        seq_delta(i % 65536, n % 65536) == if i >= n {
            i - n
        } else {
            i - n + 65536
        },
{
    lemma_fundamental_div_mod(i, 65536);
    lemma_fundamental_div_mod(n, 65536);
    lemma_mod_division_less_than_divisor(i, 65536);
    lemma_mod_division_less_than_divisor(n, 65536);
    let x = i % 65536 + 65536 - n % 65536;
    let k = 1 + n / 65536 - i / 65536;
    assert(x == 65536 * k + (i - n));
    lemma_mod_multiples_vanish(k, i - n, 65536);
    if i >= n {
        lemma_small_mod((i - n) as nat, 65536);
    } else {
        lemma_mod_multiples_vanish(1, i - n, 65536);
        lemma_small_mod((i - n + 65536) as nat, 65536);
    }
}

/// One honest arrival preserves the coupling between receiver and sender.
pub proof fn lemma_ingest_preserves_coupling(
    sent: Seq<Seq<u8>>,
    m: RecvModel,
    out: Seq<Seq<u8>>,
    i: int,
)
    requires
        receiver_coupled(sent, m, out),
        0 <= i < sent.len(),
        out.len() - 32768 <= i <= out.len() + 32767,
    ensures
        ({
            let step = spec_ingest(m, wire_sequence(i), sent[i]);
            receiver_coupled(sent, step.0, out + step.1)
        }),
{
    let n = out.len() as int;
    lemma_delta_of_indices(i, n);
    let d = seq_delta(wire_sequence(i), m.next);
    let step = spec_ingest(m, wire_sequence(i), sent[i]);
    if i >= n {
        assert(d == i - n);
        if d == 0 {
            lemma_lead_run(m.slots);
            let k = lead_run(m.slots);
            assert(n + 1 + k <= sent.len()) by {
                if k > 0 {
                    assert(m.slots[k - 1] is Some);
                }
            }
            assert(out + step.1 =~= sent.take(n + 1 + k)) by {
                assert forall|t: int| 0 <= t < n + 1 + k implies (out + step.1)[t] == sent[t] by {
                    if t < n {
                        assert(out[t] == sent.take(n)[t]);
                    } else if t > n {
                        assert(m.slots[t - n - 1] is Some);
                        assert(step.1[t - n] == run_payloads(m.slots, k)[t - n - 1]);
                    }
                }
            }
            assert(step.0.next == (n + 1 + k) % 65536) by {
                lemma_add_mod_noop(n, 1 + k, 65536);
                lemma_small_mod((1 + k) as nat, 65536);
            }
            assert forall|t: int|
                0 <= t < REORDER_WINDOW && step.0.slots[t] is Some implies (out + step.1).len() + 1
                + t < sent.len() && step.0.slots[t] == Some(
                sent[(out + step.1).len() + 1 + t],
            ) by {
                assert(step.0.slots[t] == m.slots[t + k + 1]);
            }
        } else if d <= REORDER_WINDOW {
            assert(out + step.1 =~= out);
            if m.slots[d - 1] is None {
                assert forall|t: int|
                    0 <= t < REORDER_WINDOW && step.0.slots[t] is Some implies (out
                    + step.1).len() + 1 + t < sent.len() && step.0.slots[t] == Some(
                    sent[(out + step.1).len() + 1 + t],
                ) by {
                    if t != d - 1 {
                        assert(step.0.slots[t] == m.slots[t]);
                    }
                }
            }
        } else {
            assert(out + step.1 =~= out);
        }
    } else {
        assert(d == i - n + 65536);
        assert(d >= SEQ_HALF);
        assert(out + step.1 =~= out);
    }
}

/// Reliable-ordered delivery. For any stream of sent messages and any
/// honest trace of frame arrivals — datagram loss, duplication and
/// reordering included — what the receiver hands the application is
/// exactly a prefix of the sent stream: every message at most once, in
/// the original send order, with no gaps.
pub proof fn theorem_reliable_ordered_delivery(sent: Seq<Seq<u8>>, arrivals: Seq<int>)
    requires
        forall|t: int| 0 <= t < arrivals.len() ==> arrival_honest(sent, arrivals, t),
    ensures
        ({
            let r = run_receiver(sent, arrivals);
            r.1.len() <= sent.len() && r.1 == sent.take(r.1.len() as int)
        }),
{
    lemma_run_receiver_coupled(sent, arrivals);
}

/// The coupling invariant holds along every honest arrival trace.
pub proof fn lemma_run_receiver_coupled(sent: Seq<Seq<u8>>, arrivals: Seq<int>)
    requires
        forall|t: int| 0 <= t < arrivals.len() ==> arrival_honest(sent, arrivals, t),
    ensures
        ({
            let r = run_receiver(sent, arrivals);
            receiver_coupled(sent, r.0, r.1)
        }),
    decreases arrivals.len(),
{
    if arrivals.len() == 0 {
        assert(Seq::<Seq<u8>>::empty() =~= sent.take(0));
    } else {
        let prefix = arrivals.drop_last();
        assert forall|t: int| 0 <= t < prefix.len() implies arrival_honest(sent, prefix, t) by {
            assert(arrival_honest(sent, arrivals, t));
            assert(prefix.take(t) =~= arrivals.take(t));
        }
        lemma_run_receiver_coupled(sent, prefix);
        let prior = run_receiver(sent, prefix);
        let i = arrivals.last();
        assert(arrival_honest(sent, arrivals, arrivals.len() - 1));
        assert(arrivals.take(arrivals.len() - 1) =~= prefix);
        lemma_ingest_preserves_coupling(sent, prior.0, prior.1, i);
    }
}

/// Retransmission makes progress. As long as not everything sent has
/// been delivered, the arrival of the frame the receiver expects next —
/// which its sender retransmits until an acknowledgement covers it —
/// delivers at least that message and keeps the coupling. Eventual
/// delivery of the whole stream under perpetual retransmission is then a
/// fact about the transport scheduling such arrivals, not about this
/// state machine.
pub proof fn theorem_retransmission_makes_progress(
    sent: Seq<Seq<u8>>,
    m: RecvModel,
    out: Seq<Seq<u8>>,
)
    requires
        receiver_coupled(sent, m, out),
        out.len() < sent.len(),
    ensures
        ({
            let step = spec_ingest(m, wire_sequence(out.len() as int), sent[out.len() as int]);
            &&& step.2 is Delivered
            &&& step.1.len() >= 1
            &&& step.1[0] == sent[out.len() as int]
            &&& receiver_coupled(sent, step.0, out + step.1)
        }),
{
    let n = out.len() as int;
    lemma_delta_of_indices(n, n);
    lemma_ingest_preserves_coupling(sent, m, out, n);
}

/// Idempotence of duplicates. Re-ingesting a frame whose message was
/// already delivered leaves the receiver's state and its delivered
/// output exactly as they were: the frame is discarded, as a duplicate
/// when its index lies within the backward half-space and as a protocol
/// violation when it is staler still, as long as it is not so stale
/// that it aliases an undelivered future sequence number.
pub proof fn theorem_duplicate_frame_idempotent(
    sent: Seq<Seq<u8>>,
    m: RecvModel,
    out: Seq<Seq<u8>>,
    i: int,
)
    requires
        receiver_coupled(sent, m, out),
        0 <= i < out.len(),
        out.len() - i < 65536 - REORDER_WINDOW,
    ensures
        ({
            let step = spec_ingest(m, wire_sequence(i), sent[i]);
            step.0 == m && step.1 == Seq::<Seq<u8>>::empty() && step.2 == if out.len() - i <= 32768 {
                IngestVerdict::Duplicate
            } else {
                IngestVerdict::ProtocolViolation
            }
        }),
{
    let n = out.len() as int;
    if n - i <= 32768 {
        lemma_delta_of_indices(i, n);
    } else {
        lemma_delta_of_indices(i + 65536, n);
        assert(wire_sequence(i + 65536) == wire_sequence(i)) by {
            lemma_mod_multiples_vanish(1, i, 65536);
        }
    }
}

/// Sequence numbers wrap. With the delivery point sitting exactly on a
/// wrap of the sequence space, the frame whose number wrapped to zero is
/// recognised as newer and delivered, while a frame bearing a low
/// sequence number delivered before the wrap is recognised as older and
/// dropped.
pub proof fn theorem_wraparound_orders_frames(
    sent: Seq<Seq<u8>>,
    m: RecvModel,
    out: Seq<Seq<u8>>,
    stale: int,
)
    requires
        receiver_coupled(sent, m, out),
        out.len() % 65536 == 0,
        out.len() > 0,
        out.len() < sent.len(),
        0 <= stale < out.len(),
        out.len() - stale <= 32768,
    ensures
        ({
            let step = spec_ingest(m, 0, sent[out.len() as int]);
            step.2 == IngestVerdict::Delivered && step.1[0] == sent[out.len() as int]
        }),
        spec_ingest(m, wire_sequence(stale), sent[stale]).2 == IngestVerdict::Duplicate,
{
    let n = out.len() as int;
    lemma_delta_of_indices(n, n);
    assert(wire_sequence(n) == 0) by {
        lemma_small_mod(0, 65536);
        lemma_mod_multiples_vanish(n / 65536, 0, 65536);
        lemma_fundamental_div_mod(n, 65536);
    }
    lemma_delta_of_indices(stale, n);
}

/// One sent frame awaiting acknowledgement.
pub struct PendingFrame {
    pub sequence: u16,
    pub payload: Vec<u8>,
    pub last_send: u64,
}

/// The mathematical image of a pending frame.
pub struct PendingModel {
    pub sequence: u16,
    pub payload: Seq<u8>,
    pub last_send: u64,
}

impl View for PendingFrame {
    type V = PendingModel;

    open spec fn view(&self) -> PendingModel {
        PendingModel { sequence: self.sequence, payload: self.payload@, last_send: self.last_send }
    }
}

/// The mathematical image of a pending queue.
pub open spec fn pending_model(v: Seq<PendingFrame>) -> Seq<PendingModel> {
    Seq::new(v.len(), |i: int| v[i]@)
}

/// The mathematical image of a list of frames.
pub open spec fn frames_model(v: Seq<Frame>) -> Seq<FrameModel> {
    Seq::new(v.len(), |i: int| v[i]@)
}

/// The mathematical image of a reliable-ordered send channel: the channel
/// it feeds, the send index of the oldest unacknowledged message, the
/// queue of unacknowledged frames in send order, and the retransmission
/// interval.
pub struct SendModel {
    pub channel_id: u8,
    pub base_index: int,
    pub pending: Seq<PendingModel>,
    pub retransmit_after: int,
}

/// A well-formed send model: indices fit the machine and every pending
/// frame bears the wire sequence number of its send index.
pub open spec fn send_wf(m: SendModel) -> bool {
    &&& 0 <= m.base_index
    &&& m.base_index + m.pending.len() <= u64::MAX
    &&& 1 <= m.retransmit_after
    &&& forall|j: int|
        0 <= j < m.pending.len() ==> (#[trigger] m.pending[j].sequence) as int == wire_sequence(
            m.base_index + j,
        )
}

/// A pending frame is due for retransmission once a full retransmission
/// interval has passed since it was last sent.
pub open spec fn retransmit_due(p: PendingModel, now: int, after: int) -> bool {
    now >= p.last_send + after
}

/// The pending queue after a maintenance step at time `now`: due frames
/// are restamped with `now`, the rest are untouched.
pub open spec fn spec_restamp_pending(pending: Seq<PendingModel>, now: u64, after: int) -> Seq<
    PendingModel,
> {
    Seq::new(
        pending.len(),
        |i: int|
            if retransmit_due(pending[i], now as int, after) {
                PendingModel { last_send: now, ..pending[i] }
            } else {
                pending[i]
            },
    )
}

/// The frames a maintenance step at time `now` puts back on the wire: the
/// due pending frames, in send order.
pub open spec fn spec_due_frames(
    pending: Seq<PendingModel>,
    now: int,
    after: int,
    channel_id: u8,
) -> Seq<FrameModel>
    decreases pending.len(),
{
    if pending.len() == 0 {
        Seq::<FrameModel>::empty()
    } else {
        let rest = spec_due_frames(pending.drop_last(), now, after, channel_id);
        let last = pending.last();
        if retransmit_due(last, now, after) {
            rest.push(FrameModel { channel_id, sequence: last.sequence, payload: last.payload })
        } else {
            rest
        }
    }
}

/// How many pending frames an acknowledgement of `ack` releases: the
/// modular distance from the oldest unacknowledged sequence number to the
/// one past the acknowledged one.
pub open spec fn spec_ack_count(m: SendModel, ack: int) -> int {
    seq_delta((ack + 1) % 65536, wire_sequence(m.base_index))
}

/// The send channel after ingesting a cumulative acknowledgement: when the
/// acknowledged sequence number resolves to a frame actually pending, that
/// frame and everything sent before it leave the queue; otherwise the
/// acknowledgement is stale and the channel is unchanged.
pub open spec fn spec_acknowledge(m: SendModel, ack: int) -> SendModel {
    let c = spec_ack_count(m, ack);
    if c <= m.pending.len() {
        SendModel {
            channel_id: m.channel_id,
            base_index: m.base_index + c,
            pending: m.pending.skip(c),
            retransmit_after: m.retransmit_after,
        }
    } else {
        m
    }
}

/// The sending end of a reliable-ordered channel.
///
/// Retransmission policy: a fixed, configurable interval. A frame that
/// stays unacknowledged is put back on the wire each time a full interval
/// has elapsed since it was last sent, until an acknowledgement covers it
/// or the session is torn down.
pub struct SendChannel {
    channel_id: u8,
    base_index: u64,
    pending: Vec<PendingFrame>,
    retransmit_after: u64,
}

impl View for SendChannel {
    type V = SendModel;

    closed spec fn view(&self) -> SendModel {
        SendModel {
            channel_id: self.channel_id,
            base_index: self.base_index as int,
            pending: pending_model(self.pending@),
            retransmit_after: self.retransmit_after as int,
        }
    }
}

impl SendChannel {
    /// The channel keeps its model well-formed.
    pub open spec fn wf(self) -> bool {
        send_wf(self@)
    }

    /// A fresh send channel for `channel_id` with the given fixed
    /// retransmission interval.
    pub fn new(channel_id: u8, retransmit_after: u64) -> (c: SendChannel)
        requires
            retransmit_after >= 1,
        ensures
            c.wf(),
            c@.channel_id == channel_id,
            c@.base_index == 0,
            c@.pending == Seq::<PendingModel>::empty(),
            c@.retransmit_after == retransmit_after,
    {
        let c = SendChannel { channel_id, base_index: 0, pending: Vec::new(), retransmit_after };
        proof {
            assert(c@.pending =~= Seq::<PendingModel>::empty());
        }
        c
    }

    /// The send index the next enqueued message will get.
    pub fn next_index(&self) -> (r: u64)
        requires
            self.wf(),
        ensures
            r == self@.base_index + self@.pending.len(),
    {
        self.base_index + self.pending.len() as u64
    }

    /// Whether another message can still get a send index.
    pub fn can_enqueue(&self) -> (r: bool)
        requires
            self.wf(),
        ensures
            r == (self@.base_index + self@.pending.len() < u64::MAX),
    {
        let room: u64 = u64::MAX - self.base_index;
        (self.pending.len() as u64) < room
    }

    /// Accepts one message for sending: assigns it the next sequence
    /// number, queues it as pending acknowledgement stamped with `now`,
    /// and returns the frame to put on the wire.
    pub fn enqueue(&mut self, payload: Vec<u8>, now: u64) -> (f: Frame)
        requires
            old(self).wf(),
            old(self)@.base_index + old(self)@.pending.len() < u64::MAX,
        ensures
            final(self).wf(),
            f@.channel_id == old(self)@.channel_id,
            f@.sequence as int == wire_sequence(old(self)@.base_index + old(self)@.pending.len()),
            f@.payload == payload@,
            final(self)@.channel_id == old(self)@.channel_id,
            final(self)@.base_index == old(self)@.base_index,
            final(self)@.retransmit_after == old(self)@.retransmit_after,
            final(self)@.pending == old(self)@.pending.push(
                PendingModel { sequence: f@.sequence, payload: payload@, last_send: now },
            ),
    {
        let index: u64 = self.base_index + self.pending.len() as u64;
        let sequence: u16 = (index % 65536) as u16;
        let wire_payload: Vec<u8> = copy_bytes(&payload);
        self.pending.push(PendingFrame { sequence, payload, last_send: now });
        proof {
            assert(final(self)@.pending =~= old(self)@.pending.push(
                PendingModel { sequence, payload: wire_payload@, last_send: now },
            ));
        }
        Frame { channel_id: self.channel_id, sequence, payload: wire_payload }
    }

    /// Ingests a cumulative acknowledgement naming the highest
    /// contiguously received sequence number.
    pub fn acknowledge(&mut self, ack_sequence: u16)
        requires
            old(self).wf(),
        ensures
            final(self).wf(),
            final(self)@ == spec_acknowledge(old(self)@, ack_sequence as int),
    {
        let ghost orig: SendModel = self@;
        let a1: u32 = ((ack_sequence as u32) + 1) % 65536;
        let b: u32 = (self.base_index % 65536) as u32;
        let c32: u32 = (a1 + 65536 - b) % 65536;
        proof {
            lemma_mod_division_less_than_divisor(ack_sequence as int + 1, 65536);
            lemma_mod_division_less_than_divisor(self.base_index as int, 65536);
            lemma_mod_division_less_than_divisor(a1 + 65536 - b, 65536);
            assert(c32 == spec_ack_count(orig, ack_sequence as int));
        }
        let c: usize = c32 as usize;
        if c <= self.pending.len() {
            let mut t: usize = 0;
            while t < c
                invariant
                    t <= c,
                    c <= orig.pending.len(),
                    self.pending@.len() == orig.pending.len() - t,
                    pending_model(self.pending@) == orig.pending.skip(t as int),
                    self@.channel_id == orig.channel_id,
                    self@.base_index == orig.base_index,
                    self@.retransmit_after == orig.retransmit_after,
                decreases c - t,
            {
                let ghost before: Seq<PendingFrame> = self.pending@;
                let dropped: PendingFrame = self.pending.remove(0);
                proof {
                    assert forall|i: int| 0 <= i < self.pending@.len() implies pending_model(
                        self.pending@,
                    )[i] == orig.pending.skip(t + 1)[i] by {
                        assert(self.pending@[i] == before[i + 1]);
                        assert(pending_model(before)[i + 1] == orig.pending.skip(t as int)[i + 1]);
                    }
                    assert(pending_model(self.pending@) =~= orig.pending.skip(t + 1));
                }
                t = t + 1;
            }
            self.base_index = self.base_index + c as u64;
            proof {
                assert forall|j: int|
                    0 <= j < self@.pending.len() implies (#[trigger] self@.pending[j].sequence)
                    as int == wire_sequence(self@.base_index + j) by {
                    assert(self@.pending[j] == orig.pending[j + c]);
                }
            }
        } else {
            proof {
                assert(self@ == spec_acknowledge(orig, ack_sequence as int));
            }
        }
    }

    /// The maintenance step: returns the pending frames whose
    /// retransmission interval has fully elapsed at `now`, in send order,
    /// restamping each as sent at `now`.
    pub fn retransmissions(&mut self, now: u64) -> (out: Vec<Frame>)
        requires
            old(self).wf(),
        ensures
            final(self).wf(),
            final(self)@.channel_id == old(self)@.channel_id,
            final(self)@.base_index == old(self)@.base_index,
            final(self)@.retransmit_after == old(self)@.retransmit_after,
            final(self)@.pending == spec_restamp_pending(
                old(self)@.pending,
                now,
                old(self)@.retransmit_after,
            ),
            frames_model(out@) == spec_due_frames(
                old(self)@.pending,
                now as int,
                old(self)@.retransmit_after,
                old(self)@.channel_id,
            ),
    {
        let ghost orig: SendModel = self@;
        let mut out: Vec<Frame> = Vec::new();
        let n: usize = self.pending.len();
        let mut j: usize = 0;
        proof {
            assert(frames_model(out@) =~= spec_due_frames(
                orig.pending.take(0),
                now as int,
                orig.retransmit_after,
                orig.channel_id,
            ));
        }
        while j < n
            invariant
                j <= n,
                n == orig.pending.len(),
                send_wf(orig),
                self.pending@.len() == n,
                self@.channel_id == orig.channel_id,
                self@.base_index == orig.base_index,
                self@.retransmit_after == orig.retransmit_after,
                forall|i: int|
                    0 <= i < j ==> pending_model(self.pending@)[i] == spec_restamp_pending(
                        orig.pending,
                        now,
                        orig.retransmit_after,
                    )[i],
                forall|i: int|
                    j <= i < n ==> pending_model(self.pending@)[i] == orig.pending[i],
                frames_model(out@) == spec_due_frames(
                    orig.pending.take(j as int),
                    now as int,
                    orig.retransmit_after,
                    orig.channel_id,
                ),
            decreases n - j,
        {
            let ghost before: Seq<PendingFrame> = self.pending@;
            let entry: PendingFrame = self.pending.remove(j);
            let due: bool = now >= entry.last_send && now - entry.last_send >= self.retransmit_after;
            proof {
                assert(entry == before[j as int]);
                assert(pending_model(before)[j as int] == orig.pending[j as int]);
                assert(entry@ == orig.pending[j as int]);
            }
            if due {
                let wire_payload: Vec<u8> = copy_bytes(&entry.payload);
                out.push(
                    Frame { channel_id: self.channel_id, sequence: entry.sequence, payload: wire_payload },
                );
                let restamped = PendingFrame {
                    sequence: entry.sequence,
                    payload: entry.payload,
                    last_send: now,
                };
                self.pending.insert(j, restamped);
            } else {
                self.pending.insert(j, entry);
            }
            proof {
                assert forall|i: int| 0 <= i < n && i != j implies self.pending@[i] == before[i] by {
                    if i < j {
                        assert(before.remove(j as int)[i] == before[i]);
                    } else {
                        assert(before.remove(j as int)[i - 1] == before[i]);
                    }
                }
                assert forall|i: int|
                    0 <= i <= j implies pending_model(self.pending@)[i] == spec_restamp_pending(
                    orig.pending,
                    now,
                    orig.retransmit_after,
                )[i] by {
                    if i < j {
                        assert(pending_model(before)[i] == spec_restamp_pending(
                            orig.pending,
                            now,
                            orig.retransmit_after,
                        )[i]);
                    }
                }
                assert forall|i: int|
                    j + 1 <= i < n implies pending_model(self.pending@)[i] == orig.pending[i] by {
                    assert(pending_model(before)[i] == orig.pending[i]);
                }
                assert(orig.pending.take(j + 1).drop_last() =~= orig.pending.take(j as int));
                assert(orig.pending.take(j + 1).last() == orig.pending[j as int]);
                if retransmit_due(orig.pending[j as int], now as int, orig.retransmit_after) {
                    assert(frames_model(out@) =~= spec_due_frames(
                        orig.pending.take(j + 1),
                        now as int,
                        orig.retransmit_after,
                        orig.channel_id,
                    ));
                } else {
                    assert(frames_model(out@) =~= spec_due_frames(
                        orig.pending.take(j + 1),
                        now as int,
                        orig.retransmit_after,
                        orig.channel_id,
                    ));
                }
            }
            j = j + 1;
        }
        proof {
            assert(orig.pending.take(n as int) =~= orig.pending);
            assert(pending_model(self.pending@) =~= spec_restamp_pending(
                orig.pending,
                now,
                orig.retransmit_after,
            ));
            assert forall|t: int|
                0 <= t < self@.pending.len() implies (#[trigger] self@.pending[t].sequence) as int
                == wire_sequence(self@.base_index + t) by {
                assert(orig.pending[t].sequence as int == wire_sequence(orig.base_index + t));
            }
        }
        out
    }
}

/// The unreliable channel: frames go straight out and come straight in,
/// with no buffering, no acknowledgement and no retransmission, so drops
/// and duplicates are visible to the application.
pub struct UnreliableChannel {
    next_sequence: u16,
}

impl UnreliableChannel {
    /// A fresh unreliable channel.
    pub fn new() -> (c: UnreliableChannel)
        ensures
            c.next_seq_spec() == 0,
    {
        UnreliableChannel { next_sequence: 0 }
    }

    /// The sequence number the next outgoing frame will bear.
    pub closed spec fn next_seq_spec(self) -> int {
        self.next_sequence as int
    }

    /// Stamps one outgoing message with the next sequence number; nothing
    /// is kept, so the frame is sent at most once.
    pub fn enqueue(&mut self, channel_id: u8, payload: Vec<u8>) -> (f: Frame)
        ensures
            f@.channel_id == channel_id,
            f@.sequence as int == old(self).next_seq_spec(),
            f@.payload == payload@,
            final(self).next_seq_spec() == (old(self).next_seq_spec() + 1) % 65536,
    {
        let sequence: u16 = self.next_sequence;
        self.next_sequence = (((self.next_sequence as u32) + 1) % 65536) as u16;
        Frame { channel_id, sequence, payload }
    }

    /// Delivers one incoming frame immediately, in arrival order.
    pub fn deliver(frame: Frame) -> (r: Vec<u8>)
        ensures
            r@ == frame.payload@,
    {
        frame.payload
    }
}

} // verus!
