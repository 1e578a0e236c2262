//! The model of the outgoing queues: which flows are active, what they hold,
//! and how deficit round robin serves them.
use vstd::prelude::*;

use crate::codel::{codel_decision, CodelModel};
use crate::config::DatagramAqmConfig;
use crate::flow::{
    fresh_flow, law_pruned_flow_keeps_what_fits, lemma_payload_push, payload_bytes, within,
    FlowModel, QueuedDatagram, FQ_QUANTUM,
};
use crate::frame::frame_size;
use crate::time::elapsed;

verus! {

/// The active flows by bucket, and the two lists that order their service
#[verifier::ext_equal]
pub ghost struct Schedule {
    pub flows: Map<u32, FlowModel>,
    /// Flows that became active since last served, which go first
    pub new_flows: Seq<u32>,
    /// Flows being served round-robin
    pub old_flows: Seq<u32>,
}

/// What can be counted of a flow
pub ghost enum Measure {
    /// Payload bytes queued
    Bytes,
    /// Datagrams queued
    Datagrams,
    /// Rounds of credit until the flow may send
    Debt,
}

pub open spec fn measure(m: Measure, flow: FlowModel) -> nat {
    match m {
        Measure::Bytes => payload_bytes(flow.queue),
        Measure::Datagrams => flow.queue.len(),
        Measure::Debt => if flow.deficit <= 0 {
            (-flow.deficit / (FQ_QUANTUM as int) + 1) as nat
        } else {
            0
        },
    }
}

/// The sum of a measure over all flows
pub open spec fn total(flows: Map<u32, FlowModel>, m: Measure) -> nat
    decreases flows.dom().len(),
    when flows.dom().finite()
{
    if flows.dom().len() == 0 {
        0
    } else {
        let b = flows.dom().choose();
        measure(m, flows[b]) + total(flows.remove(b), m)
    }
}

/// What one turn of the scheduler comes to
pub ghost enum Turn {
    /// No flow is active.
    Idle,
    /// The flow at the front sends nothing and gives up its place.
    Pass(Schedule),
    /// The queue management discards the head of the flow at the front.
    Discard(Schedule),
    /// The head of the flow at the front does not fit, and stays.
    Refuse(Schedule),
    /// The head of the flow at the front is sent.
    Send(Schedule, QueuedDatagram),
}

/// The queue management's decision on a head, and the flow's controller after it
pub open spec fn head_decision(
    codel: CodelModel,
    head: QueuedDatagram,
    backlog: int,
    now: int,
    aqm: Option<DatagramAqmConfig>,
) -> (bool, CodelModel) {
    match aqm {
        Some(config) => codel_decision(
            codel,
            elapsed(head.queued_at@, now),
            backlog,
            now,
            config,
        ),
        None => (false, codel),
    }
}

impl Schedule {
    /// All active flows, in the order of their service
    pub open spec fn order(self) -> Seq<u32> {
        self.new_flows + self.old_flows
    }

    /// Every active flow is scheduled exactly once, with at most a round's credit.
    pub open spec fn wf(self) -> bool {
        &&& self.order().no_duplicates()
        &&& forall|b: u32| self.order().contains(b) <==> #[trigger] self.flows.contains_key(b)
        &&& forall|b: u32| #[trigger]
            self.flows.contains_key(b) ==> self.flows[b].deficit <= FQ_QUANTUM
    }

    /// Payload bytes queued
    pub open spec fn backlog(self) -> nat {
        total(self.flows, Measure::Bytes)
    }

    /// Datagrams queued
    pub open spec fn queued(self) -> nat {
        total(self.flows, Measure::Datagrams)
    }

    /// No drop count can outgrow a machine word while what is queued drains.
    pub open spec fn drop_counts_fit(self) -> bool {
        forall|b: u32| #[trigger]
            self.flows.contains_key(b) ==> self.flows[b].codel.count + self.flows[b].queue.len()
                <= u64::MAX
    }

    /// No flow has a datagram queued.
    pub open spec fn empty(self) -> bool {
        forall|b: u32| #[trigger] self.flows.contains_key(b) ==> self.flows[b].queue.len() == 0
    }

    /// The flow has a datagram queued whose frame takes at most `room` bytes, at its head.
    pub open spec fn head_fits(self, b: u32, room: int) -> bool {
        &&& self.flows.contains_key(b)
        &&& self.flows[b].queue.len() > 0
        &&& frame_size(self.flows[b].queue[0].len() as int, true) <= room
    }

    /// No flow with datagrams queued holds more bytes than this one.
    pub open spec fn is_fattest(self, b: u32) -> bool {
        &&& self.flows.contains_key(b)
        &&& self.flows[b].queue.len() > 0
        &&& forall|c: u32| #[trigger]
            self.flows.contains_key(c) && self.flows[c].queue.len() > 0 ==> payload_bytes(
                self.flows[c].queue,
            ) <= payload_bytes(self.flows[b].queue)
    }

    /// The flow without its head
    pub open spec fn evicted(self, b: u32) -> Schedule {
        let flow = self.flows[b];
        self.with_flow(b, FlowModel { queue: flow.queue.drop_first(), ..flow })
    }

    /// Every flow without the datagrams whose payload is larger than `max_payload` bytes
    pub open spec fn pruned(self, max_payload: int) -> Schedule {
        Schedule {
            flows: Map::new(
                |b: u32| self.flows.contains_key(b),
                |b: u32| within(self.flows[b], max_payload),
            ),
            ..self
        }
    }

    /// No flow is active.
    pub open spec fn idle(self) -> bool {
        self.new_flows.len() == 0 && self.old_flows.len() == 0
    }

    /// The flow whose turn it is
    pub open spec fn front(self) -> u32 {
        if self.new_flows.len() > 0 {
            self.new_flows[0]
        } else {
            self.old_flows[0]
        }
    }

    pub open spec fn with_flow(self, b: u32, flow: FlowModel) -> Schedule {
        Schedule { flows: self.flows.insert(b, flow), ..self }
    }

    /// The flow at the front goes to the back of the round-robin list.
    pub open spec fn rotated(self) -> Schedule {
        if self.new_flows.len() > 0 {
            Schedule {
                new_flows: self.new_flows.drop_first(),
                old_flows: self.old_flows.push(self.front()),
                ..self
            }
        } else {
            Schedule { old_flows: self.old_flows.drop_first().push(self.front()), ..self }
        }
    }

    /// The flow at the front of the round-robin list is no longer active.
    pub open spec fn unregistered(self) -> Schedule {
        Schedule {
            flows: self.flows.remove(self.front()),
            old_flows: self.old_flows.drop_first(),
            ..self
        }
    }

    /// One turn, with `room` bytes left in the packet
    ///
    /// A flow out of credit gets a round's worth and goes to the back. A drained
    /// flow goes to the back from the new list and is unregistered from the
    /// round-robin list. Any other flow offers its head.
    pub open spec fn turn(self, room: int, now: int, aqm: Option<DatagramAqmConfig>) -> Turn {
        let b = self.front();
        let flow = self.flows[b];
        if self.idle() {
            Turn::Idle
        } else if flow.deficit <= 0 {
            Turn::Pass(
                self.with_flow(
                    b,
                    FlowModel { deficit: flow.deficit + FQ_QUANTUM, ..flow },
                ).rotated(),
            )
        } else if flow.queue.len() == 0 {
            if self.new_flows.len() > 0 {
                Turn::Pass(self.rotated())
            } else {
                Turn::Pass(self.unregistered())
            }
        } else {
            let head = flow.queue[0];
            let size = frame_size(head.len() as int, true);
            let (drop, codel) = head_decision(flow.codel, head, self.backlog() as int, now, aqm);
            let rest = flow.queue.drop_first();
            if drop {
                Turn::Discard(self.with_flow(b, FlowModel { queue: rest, codel, ..flow }))
            } else if size > room {
                Turn::Refuse(self.with_flow(b, FlowModel { codel, ..flow }))
            } else {
                Turn::Send(
                    self.with_flow(
                        b,
                        FlowModel { queue: rest, deficit: flow.deficit - size, codel },
                    ),
                    head,
                )
            }
        }
    }

    /// A datagram queued on its flow, which becomes active if it was not
    pub open spec fn enqueued(self, b: u32, d: QueuedDatagram) -> Schedule {
        if self.flows.contains_key(b) {
            let flow = self.flows[b];
            self.with_flow(b, FlowModel { queue: flow.queue.push(d), ..flow })
        } else {
            let flow = fresh_flow();
            Schedule {
                flows: self.flows.insert(b, FlowModel { queue: seq![d], ..flow }),
                new_flows: self.new_flows.push(b),
                ..self
            }
        }
    }
}

/// What serving the queues until something is decided comes to
#[verifier::ext_equal]
pub ghost struct Served {
    pub schedule: Schedule,
    /// The datagram that is sent, if one is, and its flow
    pub sent: Option<(u32, QueuedDatagram)>,
    /// How many datagrams the queue management discarded on the way
    pub discarded: nat,
}

/// Turns are taken until a datagram is sent, one does not fit, or no flow is left.
pub open spec fn served(
    s: Schedule,
    room: int,
    now: int,
    aqm: Option<DatagramAqmConfig>,
) -> Served
    decreases
            total(s.flows, Measure::Datagrams),
            s.flows.dom().len(),
            s.new_flows.len(),
            total(s.flows, Measure::Debt),
    when s.wf()
    via served_decreases
{
    match s.turn(room, now, aqm) {
        Turn::Idle => Served { schedule: s, sent: None, discarded: 0 },
        Turn::Pass(next) => served(next, room, now, aqm),
        Turn::Discard(next) => {
            let after = served(next, room, now, aqm);
            Served { discarded: after.discarded + 1, ..after }
        },
        Turn::Refuse(next) => Served { schedule: next, sent: None, discarded: 0 },
        Turn::Send(next, d) => Served {
            schedule: next,
            sent: Some((s.front(), d)),
            discarded: 0,
        },
    }
}

/// Whether evicting `n` heads, each from a fattest flow and only while more than
/// `limit` bytes are queued, leads from `s` to `kept`, where no more are evicted
pub open spec fn evictions(s: Schedule, kept: Schedule, limit: int, n: nat) -> bool
    decreases n,
{
    if n == 0 {
        s.backlog() <= limit && kept == s
    } else {
        &&& s.backlog() > limit
        &&& exists|b: u32| #[trigger]
            s.is_fattest(b) && evictions(s.evicted(b), kept, limit, (n - 1) as nat)
    }
}

/// Queueing a datagram adds it and its bytes.
pub proof fn lemma_enqueued(s: Schedule, b: u32, d: QueuedDatagram)
    requires
        s.wf(),
    ensures
        s.enqueued(b, d).wf(),
        s.enqueued(b, d).queued() == s.queued() + 1,
        s.enqueued(b, d).backlog() == s.backlog() + d.len(),
{
    lemma_finite(s);
    let flow = s.enqueued(b, d).flows[b];
    lemma_total_insert(s.flows, Measure::Datagrams, b, flow);
    lemma_total_insert(s.flows, Measure::Bytes, b, flow);
    if s.flows.contains_key(b) {
        lemma_payload_push(s.flows[b].queue, d);
        assert(s.enqueued(b, d).flows.dom() =~= s.flows.dom());
        assert(s.enqueued(b, d).order() == s.order());
    } else {
        lemma_payload_push(Seq::empty(), d);
        assert(Seq::<QueuedDatagram>::empty().push(d) =~= seq![d]);
        lemma_registered_wf(s, b, flow);
    }
}

proof fn lemma_registered_wf(s: Schedule, b: u32, flow: FlowModel)
    requires
        s.wf(),
        !s.flows.contains_key(b),
        flow.deficit <= FQ_QUANTUM,
    ensures
        (Schedule {
            flows: s.flows.insert(b, flow),
            new_flows: s.new_flows.push(b),
            old_flows: s.old_flows,
        }).wf(),
{
    let t = Schedule {
        flows: s.flows.insert(b, flow),
        new_flows: s.new_flows.push(b),
        old_flows: s.old_flows,
    };
    let n = s.new_flows.len();
    let before = s.order();
    let after = t.order();
    assert(forall|i: int| 0 <= i < n ==> after[i] == before[i]);
    assert(forall|i: int| n < i < after.len() ==> after[i] == before[i - 1]);
    assert(after[n as int] == b);
    assert(!before.contains(b));
    assert forall|c: u32| after.contains(c) <==> before.contains(c) || c == b by {
        if before.contains(c) {
            let i = choose|i: int| 0 <= i < before.len() && before[i] == c;
            let j = if i < n {
                i
            } else {
                i + 1
            };
            assert(after[j] == c);
        }
    }
}

/// An eviction takes one datagram and its bytes.
pub proof fn lemma_evicted(s: Schedule, b: u32)
    requires
        s.wf(),
        s.flows.contains_key(b),
        s.flows[b].queue.len() > 0,
    ensures
        s.evicted(b).wf(),
        s.evicted(b).queued() == s.queued() - 1,
        s.evicted(b).backlog() == s.backlog() - s.flows[b].queue[0].len(),
{
    lemma_finite(s);
    let rest = s.evicted(b).flows[b];
    lemma_total_insert(s.flows, Measure::Datagrams, b, rest);
    lemma_total_insert(s.flows, Measure::Bytes, b, rest);
    assert(s.evicted(b).flows.dom() =~= s.flows.dom());
    assert(s.evicted(b).order() == s.order());
}

/// Pruning keeps the schedule well-formed.
pub proof fn lemma_pruned_wf(s: Schedule, max_payload: int)
    requires
        s.wf(),
    ensures
        s.pruned(max_payload).wf(),
{
    assert(s.pruned(max_payload).order() == s.order());
    assert(s.pruned(max_payload).flows.dom() =~= s.flows.dom());
}

proof fn lemma_total_zero(flows: Map<u32, FlowModel>, m: Measure)
    requires
        flows.dom().finite(),
        forall|b: u32| #[trigger] flows.contains_key(b) ==> measure(m, flows[b]) == 0,
    ensures
        total(flows, m) == 0,
    decreases flows.dom().len(),
{
    if flows.dom().len() > 0 {
        let b = flows.dom().choose();
        assert(flows.contains_key(b));
        assert forall|c: u32| #[trigger] flows.remove(b).contains_key(c) implies measure(
            m,
            flows.remove(b)[c],
        ) == 0 by {
            assert(flows.contains_key(c));
        }
        lemma_total_zero(flows.remove(b), m);
    }
}

/// Nothing is queued exactly where no flow has a datagram queued, and then no
/// byte is.
pub proof fn lemma_empty(s: Schedule)
    requires
        s.wf(),
    ensures
        s.empty() <==> s.queued() == 0,
        s.empty() ==> s.backlog() == 0,
{
    lemma_finite(s);
    if s.empty() {
        lemma_total_zero(s.flows, Measure::Datagrams);
        lemma_total_zero(s.flows, Measure::Bytes);
    } else {
        let b = choose|b: u32| #[trigger] s.flows.contains_key(b) && s.flows[b].queue.len() > 0;
        lemma_total_split(s.flows, Measure::Datagrams, b);
    }
}

#[via_fn]
proof fn served_decreases(s: Schedule, room: int, now: int, aqm: Option<DatagramAqmConfig>) {
    lemma_turn(s, room, now, aqm);
}

pub proof fn lemma_finite(s: Schedule)
    requires
        s.wf(),
    ensures
        s.flows.dom().finite(),
{
    vstd::seq_lib::seq_to_set_is_finite(s.order());
    assert(s.flows.dom() =~= s.order().to_set());
}

/// Any one flow's share can be taken out of a total.
pub proof fn lemma_total_split(flows: Map<u32, FlowModel>, m: Measure, b: u32)
    requires
        flows.dom().finite(),
        flows.contains_key(b),
    ensures
        total(flows, m) == measure(m, flows[b]) + total(flows.remove(b), m),
    decreases flows.dom().len(),
{
    let a = flows.dom().choose();
    if a != b {
        lemma_total_split(flows.remove(a), m, b);
        lemma_total_split(flows.remove(b), m, a);
        assert(flows.remove(a).remove(b) =~= flows.remove(b).remove(a));
    }
}

/// A total after one flow is set
pub proof fn lemma_total_insert(flows: Map<u32, FlowModel>, m: Measure, b: u32, flow: FlowModel)
    requires
        flows.dom().finite(),
    ensures
        flows.contains_key(b) ==> total(flows.insert(b, flow), m) + measure(m, flows[b]) == total(
            flows,
            m,
        ) + measure(m, flow),
        !flows.contains_key(b) ==> total(flows.insert(b, flow), m) == total(flows, m) + measure(
            m,
            flow,
        ),
{
    lemma_total_split(flows.insert(b, flow), m, b);
    if flows.contains_key(b) {
        lemma_total_split(flows, m, b);
        assert(flows.insert(b, flow).remove(b) =~= flows.remove(b));
    } else {
        assert(flows.insert(b, flow).remove(b) =~= flows);
    }
}

/// What follows a turn
pub open spec fn turn_next(t: Turn, s: Schedule) -> Schedule {
    match t {
        Turn::Idle => s,
        Turn::Pass(next) => next,
        Turn::Discard(next) => next,
        Turn::Refuse(next) => next,
        Turn::Send(next, _) => next,
    }
}

/// A turn keeps the schedule well-formed, and a turn that decides nothing
/// brings the end nearer.
pub proof fn lemma_turn(s: Schedule, room: int, now: int, aqm: Option<DatagramAqmConfig>)
    requires
        s.wf(),
    ensures
        turn_next(s.turn(room, now, aqm), s).wf(),
        s.turn(room, now, aqm) is Pass || s.turn(room, now, aqm) is Discard ==> {
            let t = turn_next(s.turn(room, now, aqm), s);
            decreases_to!(
                total(s.flows, Measure::Datagrams),
                s.flows.dom().len(),
                s.new_flows.len(),
                total(s.flows, Measure::Debt)
                => total(t.flows, Measure::Datagrams),
                t.flows.dom().len(),
                t.new_flows.len(),
                total(t.flows, Measure::Debt)
            )
        },
{
    lemma_finite(s);
    if !s.idle() {
        let b = s.front();
        assert(s.order()[0] == b);
        assert(s.order().contains(b));
        assert(s.flows.contains_key(b));
        let flow = s.flows[b];
        let t = turn_next(s.turn(room, now, aqm), s);
        if flow.deficit <= 0 {
            let refilled = FlowModel { deficit: flow.deficit + FQ_QUANTUM, ..flow };
            lemma_total_insert(s.flows, Measure::Datagrams, b, refilled);
            lemma_total_insert(s.flows, Measure::Debt, b, refilled);
            assert(t.flows.dom() =~= s.flows.dom());
            lemma_rotated_wf(s.with_flow(b, refilled));
        } else if flow.queue.len() == 0 {
            if s.new_flows.len() > 0 {
                lemma_rotated_wf(s);
            } else {
                lemma_total_split(s.flows, Measure::Datagrams, b);
                lemma_unregistered_wf(s);
            }
        } else {
            assert(t.flows.dom() =~= s.flows.dom());
            assert(t.order() =~= s.order());
            lemma_total_insert(s.flows, Measure::Datagrams, b, t.flows[b]);
            assert(t.flows =~= s.flows.insert(b, t.flows[b]));
        }
    }
}

proof fn lemma_rotated_wf(s: Schedule)
    requires
        s.wf(),
        !s.idle(),
    ensures
        s.rotated().wf(),
{
    let before = s.order();
    let after = s.rotated().order();
    assert(after =~= before.drop_first().push(before[0]));
    assert forall|b: u32| after.contains(b) <==> before.contains(b) by {
        if before.contains(b) {
            let i = choose|i: int| 0 <= i < before.len() && before[i] == b;
            let j = if i == 0 {
                after.len() - 1
            } else {
                i - 1
            };
            assert(after[j] == b);
        }
        if after.contains(b) {
            let i = choose|i: int| 0 <= i < after.len() && after[i] == b;
            let j = if i == after.len() - 1 {
                0
            } else {
                i + 1
            };
            assert(before[j] == b);
        }
    }
}

proof fn lemma_unregistered_wf(s: Schedule)
    requires
        s.wf(),
        s.new_flows.len() == 0,
        s.old_flows.len() > 0,
    ensures
        s.unregistered().wf(),
{
    let before = s.order();
    let after = s.unregistered().order();
    assert(after =~= before.drop_first());
    assert forall|b: u32| after.contains(b) <==> before.contains(b) && b != before[0] by {
        if before.contains(b) && b != before[0] {
            let i = choose|i: int| 0 <= i < before.len() && before[i] == b;
            assert(after[i - 1] == b);
        }
        if after.contains(b) {
            let i = choose|i: int| 0 <= i < after.len() && after[i] == b;
            assert(before[i + 1] == b);
        }
    }
}

/// What is queued in all is what each flow has queued, taken together.
pub proof fn law_totals_add_up(s: Schedule, b: u32)
    requires
        s.wf(),
        s.flows.contains_key(b),
    ensures
        ({
            let others = Schedule { flows: s.flows.remove(b), ..s };
            &&& s.backlog() == payload_bytes(s.flows[b].queue) + others.backlog()
            &&& s.queued() == s.flows[b].queue.len() + others.queued()
        }),
{
    lemma_finite(s);
    lemma_total_split(s.flows, Measure::Bytes, b);
    lemma_total_split(s.flows, Measure::Datagrams, b);
}

/// Without flows nothing is queued.
pub proof fn law_no_flow_no_backlog(s: Schedule)
    requires
        s.flows == Map::<u32, FlowModel>::empty(),
    ensures
        s.backlog() == 0,
        s.queued() == 0,
{
    assert(s.flows.dom() =~= Set::<u32>::empty());
}

/// Every active flow stands on exactly one of the two lists, once, and its credit
/// is at most 15000 bytes; every flow on a list is active.
pub proof fn law_flows_are_scheduled_once(s: Schedule, b: u32)
    requires
        s.wf(),
    ensures
        s.flows.contains_key(b) <==> s.new_flows.contains(b) || s.old_flows.contains(b),
        !(s.new_flows.contains(b) && s.old_flows.contains(b)),
        s.new_flows.no_duplicates(),
        s.old_flows.no_duplicates(),
        s.flows.contains_key(b) ==> s.flows[b].deficit <= 15_000,
{
    let n = s.new_flows.len() as int;
    assert(forall|i: int| 0 <= i < n ==> s.order()[i] == #[trigger] s.new_flows[i]);
    assert(forall|i: int|
        0 <= i < s.old_flows.len() ==> s.order()[n + i] == #[trigger] s.old_flows[i]);
    if s.new_flows.contains(b) {
        let i = choose|i: int| 0 <= i < s.new_flows.len() && s.new_flows[i] == b;
        assert(s.order()[i] == b);
        if s.old_flows.contains(b) {
            let j = choose|j: int| 0 <= j < s.old_flows.len() && s.old_flows[j] == b;
            assert(s.order()[n + j] == b);
        }
    } else if s.old_flows.contains(b) {
        let j = choose|j: int| 0 <= j < s.old_flows.len() && s.old_flows[j] == b;
        assert(s.order()[n + j] == b);
    }
    if s.order().contains(b) {
        let i = choose|i: int| 0 <= i < s.order().len() && s.order()[i] == b;
        if i < n {
            assert(s.new_flows[i] == b);
        } else {
            assert(s.old_flows[i - n] == b);
        }
    }
    assert forall|i: int, j: int|
        0 <= i < s.old_flows.len() && 0 <= j < s.old_flows.len() && i
            != j implies s.old_flows[i] != s.old_flows[j] by {
        assert(s.order()[n + i] == s.old_flows[i] && s.order()[n + j] == s.old_flows[j]);
    }
    assert forall|i: int, j: int|
        0 <= i < s.new_flows.len() && 0 <= j < s.new_flows.len() && i
            != j implies s.new_flows[i] != s.new_flows[j] by {
        assert(s.order()[i] == s.new_flows[i] && s.order()[j] == s.new_flows[j]);
    }
}

/// A datagram goes to the end of its flow's queue. A flow that was not active goes
/// to the end of the new ones, with 15000 bytes of credit and a new controller; one
/// that was keeps its place, its credit and its controller. No other flow changes.
pub proof fn law_enqueue_registers_the_flow(s: Schedule, b: u32, d: QueuedDatagram, c: u32)
    ensures
        ({
            let t = s.enqueued(b, d);
            &&& t.flows.contains_key(b)
            &&& t.old_flows == s.old_flows
            &&& s.flows.contains_key(b) ==> {
                &&& t.new_flows == s.new_flows
                &&& t.flows[b].queue == s.flows[b].queue.push(d)
                &&& t.flows[b].deficit == s.flows[b].deficit
                &&& t.flows[b].codel == s.flows[b].codel
            }
            &&& !s.flows.contains_key(b) ==> {
                &&& t.new_flows == s.new_flows.push(b)
                &&& t.flows[b].queue == seq![d]
                &&& t.flows[b].deficit == 15_000
                &&& t.flows[b].codel.first_above is None
                &&& t.flows[b].codel.drop_next is None
                &&& t.flows[b].codel.count == 0
                &&& !t.flows[b].codel.dropping
            }
            &&& c != b ==> {
                &&& t.flows.contains_key(c) <==> s.flows.contains_key(c)
                &&& t.flows[c] == s.flows[c]
            }
        }),
{
}

/// Pruning takes datagrams out of queues and does nothing else: every flow stays
/// where it is, with its credit and its controller.
pub proof fn law_pruning_touches_queues_only(s: Schedule, max_payload: int, b: u32)
    ensures
        s.pruned(max_payload).new_flows == s.new_flows,
        s.pruned(max_payload).old_flows == s.old_flows,
        s.pruned(max_payload).flows.contains_key(b) <==> s.flows.contains_key(b),
        s.flows.contains_key(b) ==> {
            let (flow, kept) = (s.flows[b], s.pruned(max_payload).flows[b]);
            &&& kept.queue == flow.queue.filter(
                |d: QueuedDatagram| d.datagram.payload().len() <= max_payload,
            )
            &&& kept.deficit == flow.deficit
            &&& kept.codel == flow.codel
        },
{
    if s.flows.contains_key(b) {
        law_pruned_flow_keeps_what_fits(s.flows[b], max_payload);
    }
}

} // verus!
