//! One flow's queue of outgoing datagrams.
use vstd::prelude::*;

use crate::codel::{codel_initial, CodelModel, CodelState};
use crate::frame::{encodable, frame_size, Datagram};
use crate::time::Instant;
use std::collections::VecDeque;

verus! {

/// DRR byte credit per scheduling round (RFC 8290 section 4.2 quantum)
///
/// Deliberately ~12 full-size datagrams rather than the classic one-MTU
/// quantum: a per-packet round-robin shreds the per-flow packet trains that
/// GSO batching and receiver-side GRO coalescing depend on, which measurably
/// costs clean-path throughput at high rates. Packet-train turns keep that
/// batching; the sparse-flow latency cost is bounded by quantum/line_rate
/// (3 ms at 40 Mbit, microseconds at 1 Gbps) and fresh sparse flows still
/// preempt via the new-flow priority list.
pub const FQ_QUANTUM: i64 = 15_000;

/// An outgoing datagram together with the time it entered the send buffer
///
/// The timestamp is what the AQM measures: queue latency is the sojourn time
/// of the head-of-line datagram, not the buffer's byte occupancy.
#[derive(Debug)]
pub struct QueuedDatagram {
    pub queued_at: Instant,
    pub datagram: Datagram,
}

impl QueuedDatagram {
    /// Payload length
    pub open spec fn len(&self) -> nat {
        self.datagram.payload().len()
    }

    /// Wire size of the queued datagram's DATAGRAM frame
    pub fn frame_size(&self, length_prefix: bool) -> (size: usize)
        requires
            encodable(self.len() as int),
        ensures
            size == frame_size(self.len() as int, length_prefix),
    {
        self.datagram.size(length_prefix)
    }
}

/// Payload bytes in a queue
pub open spec fn payload_bytes(queue: Seq<QueuedDatagram>) -> nat
    decreases queue.len(),
{
    if queue.len() == 0 {
        0
    } else {
        queue[0].len() + payload_bytes(queue.drop_first())
    }
}

/// One flow's FIFO plus its scheduler and AQM state
///
/// Lives only while the flow has datagrams queued (or is finishing its DRR
/// round): state is proportional to ACTIVE flows, not to the bucket space.
#[derive(Debug)]
pub struct FlowQueue {
    pub queue: VecDeque<QueuedDatagram>,
    /// Queued payload bytes (this queue's share of `outgoing_total`)
    pub bytes: usize,
    /// DRR byte credit; a flow only dequeues while positive
    pub deficit: i64,
    pub codel: CodelState,
}

/// What a [`FlowQueue`] stands for
#[verifier::ext_equal]
pub ghost struct FlowModel {
    pub queue: Seq<QueuedDatagram>,
    pub deficit: int,
    pub codel: CodelModel,
}

impl View for FlowQueue {
    type V = FlowModel;

    open spec fn view(&self) -> FlowModel {
        FlowModel { queue: self.queue@, deficit: self.deficit as int, codel: self.codel@ }
    }
}

/// A flow that has just become active: nothing queued yet, a full round's credit
pub open spec fn fresh_flow() -> FlowModel {
    FlowModel { queue: Seq::empty(), deficit: FQ_QUANTUM as int, codel: codel_initial() }
}

impl FlowQueue {
    /// The byte count is that of the queue.
    pub open spec fn wf(&self) -> bool {
        self.bytes == payload_bytes(self.queue@)
    }

    pub fn new() -> (flow: Self)
        ensures
            flow.wf(),
            flow@ == fresh_flow(),
    {
        let flow = FlowQueue {
            queue: VecDeque::new(),
            bytes: 0,
            deficit: FQ_QUANTUM,
            codel: CodelState::default(),
        };
        assert(flow.queue@ =~= Seq::<QueuedDatagram>::empty());
        flow
    }
}

/// The flow without the datagrams whose payload is larger than `max_payload` bytes
pub open spec fn within(flow: FlowModel, max_payload: int) -> FlowModel {
    FlowModel { queue: flow.queue.filter(|d: QueuedDatagram| d.len() <= max_payload), ..flow }
}

impl FlowQueue {
    /// Discard datagrams with a payload larger than `max_payload` bytes, and
    /// return how many bytes of payload that was
    pub(crate) fn drop_oversized(&mut self, max_payload: usize) -> (dropped: usize)
        requires
            old(self).wf(),
        ensures
            final(self).wf(),
            final(self)@ == within(old(self)@, max_payload as int),
            dropped == old(self).bytes - final(self).bytes,
    {
        let ghost queue = self.queue@;
        let ghost fits = |d: QueuedDatagram| d.len() <= max_payload;
        let ghost mut rest = queue;
        let ghost mut kept = Seq::<QueuedDatagram>::empty();
        let count: usize = self.queue.len();
        let mut dropped: usize = 0;
        let mut i: usize = 0;
        assert(rest + kept =~= queue);
        assert(queue.take(0) =~= kept);
        reveal(Seq::filter);
        while i < count
            invariant
                i <= count == queue.len(),
                queue == old(self).queue@,
                rest == queue.skip(i as int),
                kept == queue.take(i as int).filter(fits),
                fits == (|d: QueuedDatagram| d.len() <= max_payload),
                self.queue@ == rest + kept,
                self.bytes == payload_bytes(rest) + payload_bytes(kept),
                self.bytes + dropped == old(self).bytes,
                self.deficit == old(self).deficit,
                self.codel == old(self).codel,
            decreases count - i,
        {
            reveal(Seq::filter);
            let ghost before = kept;
            proof {
                assert(rest.drop_first() =~= queue.skip(i + 1));
                assert(queue.take(i + 1).drop_last() =~= queue.take(i as int));
                assert(queue.take(i + 1).last() == rest[0]);
                assert(self.queue@.drop_first() =~= rest.drop_first() + kept);
                lemma_payload_push(before, rest[0]);
            }
            match self.queue.pop_front() {
                Some(queued) => {
                    let len: usize = queued.datagram.data.len();
                    if len <= max_payload {
                        self.queue.push_back(queued);
                        proof {
                            kept = kept.push(queued);
                        }
                    } else {
                        self.bytes = self.bytes - len;
                        dropped = dropped + len;
                    }
                },
                None => {
                    assert(false);
                },
            }
            proof {
                rest = rest.drop_first();
                assert(self.queue@ =~= rest + kept);
            }
            i = i + 1;
        }
        proof {
            assert(queue.take(count as int) =~= queue);
            assert(self.queue@ =~= kept);
            assert(self@ =~= within(old(self)@, max_payload as int));
        }
        dropped
    }
}

/// What a pruned flow still holds was there before.
pub proof fn lemma_within_encodable(flow: FlowModel, max_payload: int)
    ensures
        (forall|i: int|
            0 <= i < flow.queue.len() ==> encodable(#[trigger] flow.queue[i].len() as int))
            ==> forall|i: int|
            0 <= i < within(flow, max_payload).queue.len() ==> encodable(
                #[trigger] within(flow, max_payload).queue[i].len() as int,
            ),
{
    let fits = |d: QueuedDatagram| d.len() <= max_payload;
    let kept = flow.queue.filter(fits);
    assert forall|i: int| 0 <= i < kept.len() implies flow.queue.contains(#[trigger] kept[i]) by {
        flow.queue.lemma_filter_contains_rev(fits, kept[i]);
    }
}

pub proof fn lemma_payload_push(queue: Seq<QueuedDatagram>, d: QueuedDatagram)
    ensures
        payload_bytes(queue.push(d)) == payload_bytes(queue) + d.len(),
    decreases queue.len(),
{
    if queue.len() == 0 {
        assert(queue.push(d).drop_first() =~= queue);
    } else {
        assert(queue.push(d).drop_first() =~= queue.drop_first().push(d));
        lemma_payload_push(queue.drop_first(), d);
    }
}

/// The bytes of a queue are those of its datagrams, taken together.
pub proof fn law_payload_bytes_add_up(
    a: Seq<QueuedDatagram>,
    b: Seq<QueuedDatagram>,
    d: QueuedDatagram,
)
    ensures
        payload_bytes(Seq::<QueuedDatagram>::empty()) == 0,
        payload_bytes(seq![d]) == d.datagram.payload().len(),
        payload_bytes(a + b) == payload_bytes(a) + payload_bytes(b),
    decreases a.len(),
{
    reveal_with_fuel(payload_bytes, 2);
    assert(seq![d].drop_first() =~= Seq::<QueuedDatagram>::empty());
    if a.len() == 0 {
        assert(a + b =~= b);
    } else {
        assert((a + b).drop_first() =~= a.drop_first() + b);
        law_payload_bytes_add_up(a.drop_first(), b, d);
    }
}

/// The model of a flow is the flow: its queue, its credit, its controller. A flow
/// starts with an empty queue, 15000 bytes of credit and a new controller.
pub proof fn law_flow_model_is_faithful(flow: FlowQueue)
    ensures
        flow@.queue == flow.queue@,
        flow@.deficit == flow.deficit,
        flow@.codel == flow.codel@,
        flow.wf() <==> flow.bytes == payload_bytes(flow.queue@),
        fresh_flow().queue.len() == 0,
        fresh_flow().deficit == 15_000,
        fresh_flow().codel == codel_initial(),
        FQ_QUANTUM == 15_000,
{
}

/// Pruning keeps exactly the datagrams of at most `max_payload` bytes, in order,
/// and leaves credit and controller as they are.
pub proof fn law_pruned_flow_keeps_what_fits(flow: FlowModel, max_payload: int)
    ensures
        within(flow, max_payload).queue == flow.queue.filter(
            |d: QueuedDatagram| d.datagram.payload().len() <= max_payload,
        ),
        within(flow, max_payload).deficit == flow.deficit,
        within(flow, max_payload).codel == flow.codel,
{
    let fits = |d: QueuedDatagram| d.datagram.payload().len() <= max_payload;
    assert(fits =~= (|d: QueuedDatagram| d.len() <= max_payload));
}

} // verus!
