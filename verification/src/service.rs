//! What the scheduler guarantees over whole services and runs of them: nothing is
//! lost or reordered within a flow, sparse flows go first, and drained flows leave
//! no state behind.
use vstd::prelude::*;

use crate::codel::{
    above_target_since, codel_after, codel_decision, codel_drops, law_standing_queue_is_dropped,
    lemma_codel_after_first, Dequeue, CODEL_MIN_BACKLOG,
};
use crate::config::DatagramAqmConfig;
use crate::fairness::{lemma_step_wf, run, stays_backlogged, step, Event};
use crate::flow::{FlowModel, QueuedDatagram};
use crate::frame::frame_size;
use crate::schedule::{
    lemma_empty, lemma_enqueued, lemma_finite, lemma_pruned_wf, lemma_total_insert,
    lemma_total_split, lemma_turn, served, total, turn_next, Measure, Schedule, Served, Turn,
};
use crate::time::elapsed;

verus! {

/// What a flow has queued: nothing where it is not active
pub open spec fn queue_of(s: Schedule, b: u32) -> Seq<QueuedDatagram> {
    if s.flows.contains_key(b) {
        s.flows[b].queue
    } else {
        Seq::empty()
    }
}

/// Whether `rest` is what is left of `queue` after some of its oldest are gone
pub open spec fn is_rest_of(rest: Seq<QueuedDatagram>, queue: Seq<QueuedDatagram>) -> bool {
    rest.len() <= queue.len() && rest == queue.skip(queue.len() - rest.len())
}

/// Whether the next head does not fit into `room` bytes, though it is its flow's turn
pub open spec fn head_refused(s: Schedule, room: int) -> bool {
    let flow = s.flows[s.front()];
    &&& !s.idle()
    &&& flow.deficit > 0
    &&& flow.queue.len() > 0
    &&& frame_size(flow.queue[0].len() as int, true) > room
}

proof fn lemma_rest_transitive(
    a: Seq<QueuedDatagram>,
    b: Seq<QueuedDatagram>,
    c: Seq<QueuedDatagram>,
)
    requires
        is_rest_of(a, b),
        is_rest_of(b, c),
    ensures
        is_rest_of(a, c),
{
    assert(a =~= c.skip(c.len() - a.len()));
}

proof fn lemma_front_active(s: Schedule)
    requires
        s.wf(),
        !s.idle(),
    ensures
        s.flows.contains_key(s.front()),
        s.order().len() > 0,
        s.order()[0] == s.front(),
{
    assert(s.order()[0] == s.front());
    assert(s.order().contains(s.front()));
}

/// One turn changes the queue of the flow at the front only, and only by taking
/// its head.
proof fn lemma_turn_queues(s: Schedule, room: int, now: int, aqm: Option<DatagramAqmConfig>, b: u32)
    requires
        s.wf(),
        !s.idle(),
    ensures
        ({
            let turn = s.turn(room, now, aqm);
            let t = turn_next(turn, s);
            &&& b == s.front() && (turn is Discard || turn is Send) ==> {
                &&& queue_of(s, b).len() > 0
                &&& queue_of(t, b) == queue_of(s, b).drop_first()
            }
            &&& !(b == s.front() && (turn is Discard || turn is Send)) ==> queue_of(t, b)
                == queue_of(s, b)
        }),
{
    lemma_front_active(s);
    let turn = s.turn(room, now, aqm);
    let t = turn_next(turn, s);
    assert(queue_of(t, b) =~= if b == s.front() && (turn is Discard || turn is Send) {
        queue_of(s, b).drop_first()
    } else {
        queue_of(s, b)
    });
}

proof fn lemma_turn_count(s: Schedule, room: int, now: int, aqm: Option<DatagramAqmConfig>)
    requires
        s.wf(),
    ensures
        ({
            let turn = s.turn(room, now, aqm);
            let t = turn_next(turn, s);
            s.queued() == t.queued() + (if turn is Discard || turn is Send {
                1nat
            } else {
                0
            })
        }),
{
    lemma_finite(s);
    if !s.idle() {
        lemma_front_active(s);
        let b = s.front();
        let flow = s.flows[b];
        let t = turn_next(s.turn(room, now, aqm), s);
        if flow.deficit > 0 && flow.queue.len() == 0 {
            lemma_total_split(s.flows, Measure::Datagrams, b);
        } else {
            lemma_total_insert(s.flows, Measure::Datagrams, b, t.flows[b]);
            assert(t.flows =~= s.flows.insert(b, t.flows[b]));
        }
    }
}

/// Serving the queues loses and reorders nothing: every flow is left with the
/// rest of what it had queued, the datagram that is sent is the one right ahead
/// of that rest, and every datagram is sent, discarded or still queued.
pub proof fn law_service_keeps_order(
    s: Schedule,
    room: int,
    now: int,
    aqm: Option<DatagramAqmConfig>,
    b: u32,
)
    requires
        s.wf(),
    ensures
        ({
            let after = served(s, room, now, aqm);
            let before_queue = queue_of(s, b);
            let after_queue = queue_of(after.schedule, b);
            &&& after.schedule.wf()
            &&& is_rest_of(after_queue, before_queue)
            &&& s.queued() == after.schedule.queued() + after.discarded + (if after.sent is Some {
                1nat
            } else {
                0
            })
            &&& after.sent matches Some((flow, d)) ==> {
                &&& frame_size(d.len() as int, true) <= room
                &&& flow == b ==> {
                    &&& after_queue.len() < before_queue.len()
                    &&& d == before_queue[before_queue.len() - after_queue.len() - 1]
                }
            }
            &&& aqm is None ==> after.discarded == 0
        }),
    decreases
            total(s.flows, Measure::Datagrams),
            s.flows.dom().len(),
            s.new_flows.len(),
            total(s.flows, Measure::Debt),
{
    lemma_turn(s, room, now, aqm);
    lemma_turn_count(s, room, now, aqm);
    if !s.idle() {
        lemma_turn_queues(s, room, now, aqm, b);
        lemma_front_active(s);
        let turn = s.turn(room, now, aqm);
        let t = turn_next(turn, s);
        assert(is_rest_of(queue_of(t, b), queue_of(s, b))) by {
            assert(queue_of(s, b).skip(0) =~= queue_of(s, b));
            assert(queue_of(t, b) =~= queue_of(s, b).skip(
                queue_of(s, b).len() - queue_of(t, b).len(),
            ));
        }
        if turn is Pass || turn is Discard {
            law_service_keeps_order(t, room, now, aqm, b);
            let after = served(t, room, now, aqm);
            lemma_rest_transitive(queue_of(after.schedule, b), queue_of(t, b), queue_of(s, b));
        }
    } else {
        assert(queue_of(s, b).skip(0) =~= queue_of(s, b));
    }
}

/// Serving stops without sending only where no flow is active any more or the
/// next head does not fit; in the first case no state of any flow is left.
pub proof fn law_service_stops(s: Schedule, room: int, now: int, aqm: Option<DatagramAqmConfig>)
    requires
        s.wf(),
    ensures
        ({
            let after = served(s, room, now, aqm);
            after.sent is None ==> {
                ||| after.schedule.idle() && after.schedule.flows == Map::<u32, FlowModel>::empty()
                ||| head_refused(after.schedule, room)
            }
        }),
    decreases
            total(s.flows, Measure::Datagrams),
            s.flows.dom().len(),
            s.new_flows.len(),
            total(s.flows, Measure::Debt),
{
    lemma_turn(s, room, now, aqm);
    let turn = s.turn(room, now, aqm);
    if s.idle() {
        assert forall|b: u32| !#[trigger] s.flows.contains_key(b) by {
            assert(!s.order().contains(b));
        }
        assert(s.flows =~= Map::<u32, FlowModel>::empty());
    } else {
        lemma_front_active(s);
        if turn is Pass || turn is Discard {
            law_service_stops(turn_next(turn, s), room, now, aqm);
        }
    }
}

/// With nothing queued, serving sends nothing and unregisters every flow.
pub proof fn law_drained_flows_are_unregistered(
    s: Schedule,
    room: int,
    now: int,
    aqm: Option<DatagramAqmConfig>,
)
    requires
        s.wf(),
        s.empty(),
    ensures
        served(s, room, now, aqm) == (Served {
            schedule: Schedule {
                flows: Map::empty(),
                new_flows: Seq::empty(),
                old_flows: Seq::empty(),
            },
            sent: None,
            discarded: 0,
        }),
{
    let after = served(s, room, now, aqm);
    lemma_empty(s);
    law_service_keeps_order(s, room, now, aqm, after.schedule.front());
    law_service_stops(s, room, now, aqm);
    lemma_empty(after.schedule);
    if head_refused(after.schedule, room) {
        lemma_front_active(after.schedule);
    }
    assert(after.schedule.new_flows =~= Seq::<u32>::empty());
    assert(after.schedule.old_flows =~= Seq::<u32>::empty());
}

/// Whether a datagram fits, and has not waited for as long as the queue
/// management minds
pub open spec fn deliverable(
    d: QueuedDatagram,
    room: int,
    now: int,
    aqm: Option<DatagramAqmConfig>,
) -> bool {
    &&& frame_size(d.len() as int, true) <= room
    &&& aqm matches Some(config) ==> elapsed(d.queued_at@, now) < config.target@
}

/// Whether every datagram queued is deliverable
pub open spec fn all_deliverable(
    s: Schedule,
    room: int,
    now: int,
    aqm: Option<DatagramAqmConfig>,
) -> bool {
    forall|b: u32, i: int|
        #![trigger queue_of(s, b)[i]]
        0 <= i < queue_of(s, b).len() ==> deliverable(queue_of(s, b)[i], room, now, aqm)
}

proof fn lemma_rests_deliverable(
    s: Schedule,
    t: Schedule,
    room: int,
    now: int,
    aqm: Option<DatagramAqmConfig>,
)
    requires
        all_deliverable(s, room, now, aqm),
        forall|b: u32| is_rest_of(#[trigger] queue_of(t, b), queue_of(s, b)),
    ensures
        all_deliverable(t, room, now, aqm),
{
    assert forall|b: u32, i: int|
        #![trigger queue_of(t, b)[i]]
        0 <= i < queue_of(t, b).len() implies deliverable(queue_of(t, b)[i], room, now, aqm) by {
        let (rest, queue) = (queue_of(t, b), queue_of(s, b));
        assert(rest[i] == queue[queue.len() - rest.len() + i]);
    }
}

/// Whether the queue management has no cause to drop anything: next to nothing
/// is queued, or every datagram queued has waited for less than the target
pub open spec fn queues_calm(s: Schedule, now: int, config: DatagramAqmConfig) -> bool {
    ||| s.backlog() <= CODEL_MIN_BACKLOG
    ||| forall|b: u32, i: int|
        #![trigger queue_of(s, b)[i]]
        0 <= i < queue_of(s, b).len() ==> elapsed(queue_of(s, b)[i].queued_at@, now)
            < config.target@
}

proof fn lemma_pass_keeps_backlog(
    s: Schedule,
    room: int,
    now: int,
    aqm: Option<DatagramAqmConfig>,
)
    requires
        s.wf(),
        s.turn(room, now, aqm) is Pass,
    ensures
        turn_next(s.turn(room, now, aqm), s).backlog() == s.backlog(),
{
    lemma_finite(s);
    lemma_front_active(s);
    let b = s.front();
    let flow = s.flows[b];
    let t = turn_next(s.turn(room, now, aqm), s);
    if flow.deficit > 0 {
        lemma_total_split(s.flows, Measure::Bytes, b);
    } else {
        lemma_total_insert(s.flows, Measure::Bytes, b, t.flows[b]);
        assert(t.flows =~= s.flows.insert(b, t.flows[b]));
    }
}

/// A nearly drained queue, and one that holds only fresh datagrams, loses nothing
/// to the queue management, whatever state the controllers are in.
pub proof fn law_calm_service_discards_nothing(
    s: Schedule,
    room: int,
    now: int,
    config: DatagramAqmConfig,
)
    requires
        s.wf(),
        queues_calm(s, now, config),
    ensures
        served(s, room, now, Some(config)).discarded == 0,
    decreases
            total(s.flows, Measure::Datagrams),
            s.flows.dom().len(),
            s.new_flows.len(),
            total(s.flows, Measure::Debt),
{
    let aqm = Some(config);
    lemma_turn(s, room, now, aqm);
    let turn = s.turn(room, now, aqm);
    let t = turn_next(turn, s);
    if !s.idle() {
        lemma_front_active(s);
        assert(s.flows[s.front()].queue.len() > 0 ==> queue_of(s, s.front())[0]
            == s.flows[s.front()].queue[0]);
        assert(turn !is Discard);
        if turn is Pass {
            lemma_pass_keeps_backlog(s, room, now, aqm);
            assert forall|b: u32| #[trigger] queue_of(t, b) == queue_of(s, b) by {
                lemma_turn_queues(s, room, now, aqm, b);
            }
            law_calm_service_discards_nothing(t, room, now, config);
        }
    }
}

/// While every datagram queued is deliverable, serving discards none, and sends
/// one if there is one: the head of its flow, all other queues staying as they are.
pub proof fn law_service_is_work_conserving(
    s: Schedule,
    room: int,
    now: int,
    aqm: Option<DatagramAqmConfig>,
)
    requires
        s.wf(),
        all_deliverable(s, room, now, aqm),
    ensures
        ({
            let after = served(s, room, now, aqm);
            &&& after.discarded == 0
            &&& after.sent is Some <==> !s.empty()
            &&& after.sent matches Some((flow, d)) ==> {
                &&& queue_of(s, flow).len() > 0
                &&& d == queue_of(s, flow)[0]
                &&& queue_of(after.schedule, flow) == queue_of(s, flow).drop_first()
                &&& forall|b: u32|
                    b != flow ==> #[trigger] queue_of(after.schedule, b) == queue_of(s, b)
            }
            &&& after.sent is None ==> forall|b: u32| #[trigger]
                queue_of(after.schedule, b) == queue_of(s, b)
            &&& all_deliverable(after.schedule, room, now, aqm)
        }),
    decreases
            total(s.flows, Measure::Datagrams),
            s.flows.dom().len(),
            s.new_flows.len(),
            total(s.flows, Measure::Debt),
{
    lemma_turn(s, room, now, aqm);
    let turn = s.turn(room, now, aqm);
    let t = turn_next(turn, s);
    let after = served(s, room, now, aqm);
    if s.idle() {
        assert forall|b: u32| !#[trigger] s.flows.contains_key(b) by {
            assert(!s.order().contains(b));
        }
    } else {
        let front = s.front();
        lemma_front_active(s);
        assert forall|b: u32| #[trigger]
            queue_of(t, b) == (if b == front && (turn is Discard || turn is Send) {
                queue_of(s, b).drop_first()
            } else {
                queue_of(s, b)
            }) by {
            lemma_turn_queues(s, room, now, aqm, b);
        }
        assert forall|b: u32| is_rest_of(#[trigger] queue_of(t, b), queue_of(s, b)) by {
            assert(queue_of(s, b).skip(0) =~= queue_of(s, b));
        }
        lemma_rests_deliverable(s, t, room, now, aqm);
        if s.flows[front].queue.len() > 0 {
            assert(deliverable(queue_of(s, front)[0], room, now, aqm));
        }
        if turn is Pass {
            law_service_is_work_conserving(t, room, now, aqm);
            assert(s.empty() <==> t.empty()) by {
                if !s.empty() {
                    let b = choose|b: u32| #[trigger]
                        s.flows.contains_key(b) && s.flows[b].queue.len() > 0;
                    assert(queue_of(t, b).len() > 0);
                    assert(t.flows.contains_key(b));
                }
                if !t.empty() {
                    let b = choose|b: u32| #[trigger]
                        t.flows.contains_key(b) && t.flows[b].queue.len() > 0;
                    assert(queue_of(t, b).len() > 0);
                    assert(s.flows.contains_key(b));
                }
            }
        } else {
            assert(turn is Send);
            assert(s.flows.contains_key(front));
        }
    }
}

/// What `n` services in a row leave, and what they send, in order, with the flows
pub open spec fn drained(
    s: Schedule,
    room: int,
    now: int,
    aqm: Option<DatagramAqmConfig>,
    n: nat,
) -> (Schedule, Seq<(u32, QueuedDatagram)>)
    decreases n,
{
    if n == 0 {
        (s, Seq::empty())
    } else {
        let first = served(s, room, now, aqm);
        let (end, rest) = drained(first.schedule, room, now, aqm, (n - 1) as nat);
        match first.sent {
            Some(x) => (end, seq![x] + rest),
            None => (end, rest),
        }
    }
}

/// What was sent of one flow, in order
pub open spec fn sent_of(sent: Seq<(u32, QueuedDatagram)>, b: u32) -> Seq<QueuedDatagram>
    decreases sent.len(),
{
    if sent.len() == 0 {
        Seq::empty()
    } else if sent[0].0 == b {
        seq![sent[0].1] + sent_of(sent.drop_first(), b)
    } else {
        sent_of(sent.drop_first(), b)
    }
}

/// While every datagram queued is deliverable, services in a row send each flow's
/// datagrams once each, in the order in which they were queued, and as many
/// services as datagrams are queued send them all.
pub proof fn law_every_datagram_is_delivered_in_order(
    s: Schedule,
    room: int,
    now: int,
    aqm: Option<DatagramAqmConfig>,
    n: nat,
    b: u32,
)
    requires
        s.wf(),
        all_deliverable(s, room, now, aqm),
    ensures
        ({
            let (end, sent) = drained(s, room, now, aqm, n);
            &&& end.wf()
            &&& sent_of(sent, b) + queue_of(end, b) == queue_of(s, b)
            &&& sent.len() == if n < s.queued() {
                n
            } else {
                s.queued()
            }
            &&& n >= s.queued() ==> end.empty() && sent_of(sent, b) == queue_of(s, b)
        }),
    decreases n,
{
    let (end, sent) = drained(s, room, now, aqm, n);
    lemma_empty(s);
    if n == 0 {
        assert(sent_of(sent, b) + queue_of(end, b) =~= queue_of(s, b));
    } else {
        let first = served(s, room, now, aqm);
        let (end, rest) = drained(first.schedule, room, now, aqm, (n - 1) as nat);
        law_service_keeps_order(s, room, now, aqm, b);
        law_service_is_work_conserving(s, room, now, aqm);
        law_every_datagram_is_delivered_in_order(
            first.schedule,
            room,
            now,
            aqm,
            (n - 1) as nat,
            b,
        );
        match first.sent {
            Some((flow, d)) => {
                assert((seq![(flow, d)] + rest).drop_first() =~= rest);
                if flow == b {
                    assert(seq![d] + queue_of(s, b).drop_first() =~= queue_of(s, b));
                    assert(seq![d] + sent_of(rest, b) + queue_of(end, b) =~= seq![d] + (sent_of(
                        rest,
                        b,
                    ) + queue_of(end, b)));
                }
            },
            None => {},
        }
    }
    if n >= s.queued() {
        if n == 0 {
            lemma_empty(s);
        }
        assert(queue_of(end, b) =~= Seq::<QueuedDatagram>::empty());
        assert(sent_of(sent, b) =~= queue_of(s, b));
    }
}

/// With a single flow active the scheduler is a plain FIFO: services in a row
/// send what is queued, in exactly the order in which it was queued.
pub proof fn law_single_flow_is_fifo(
    s: Schedule,
    b: u32,
    room: int,
    now: int,
    aqm: Option<DatagramAqmConfig>,
    n: nat,
)
    requires
        s.wf(),
        forall|c: u32| c != b ==> (#[trigger] queue_of(s, c)).len() == 0,
        all_deliverable(s, room, now, aqm),
        n <= queue_of(s, b).len(),
    ensures
        drained(s, room, now, aqm, n).1 == Seq::new(n, |i: int| (b, queue_of(s, b)[i])),
    decreases n,
{
    if n > 0 {
        let first = served(s, room, now, aqm);
        law_service_keeps_order(s, room, now, aqm, b);
        law_service_is_work_conserving(s, room, now, aqm);
        assert(s.flows.contains_key(b));
        let (flow, d) = first.sent->0;
        assert(queue_of(s, flow).len() > 0);
        assert(flow == b);
        law_single_flow_is_fifo(first.schedule, b, room, now, aqm, (n - 1) as nat);
    }
    assert(drained(s, room, now, aqm, n).1 =~= Seq::new(n, |i: int| (b, queue_of(s, b)[i])));
}

/// A flow that has just become active is served before the standing queues of
/// all others: if no other new flow waits and its head is neither stale nor too
/// large, the very next service sends it, discards nothing and leaves every
/// other flow as it is.
pub proof fn law_fresh_flow_goes_first(
    s: Schedule,
    b: u32,
    d: QueuedDatagram,
    room: int,
    now: int,
    aqm: Option<DatagramAqmConfig>,
)
    requires
        s.wf(),
        !s.flows.contains_key(b),
        s.new_flows.len() == 0,
        frame_size(d.len() as int, true) <= room,
        aqm matches Some(config) ==> elapsed(d.queued_at@, now) < config.target@,
    ensures
        ({
            let after = served(s.enqueued(b, d), room, now, aqm);
            &&& after.sent == Some((b, d))
            &&& after.discarded == 0
            &&& queue_of(after.schedule, b) == Seq::<QueuedDatagram>::empty()
            &&& forall|c: u32|
                #![trigger after.schedule.flows.contains_key(c)]
                #![trigger s.flows.contains_key(c)]
                c != b ==> (after.schedule.flows.contains_key(c) <==> s.flows.contains_key(c))
            &&& forall|c: u32|
                c != b && #[trigger] s.flows.contains_key(c) ==> after.schedule.flows[c]
                    == s.flows[c]
        }),
{
    let t = s.enqueued(b, d);
    lemma_enqueued(s, b, d);
    assert(t.front() == b);
    assert(seq![d].drop_first() =~= Seq::<QueuedDatagram>::empty());
    let after = served(t, room, now, aqm);
    assert(t.turn(room, now, aqm) is Send);
}

/// Whether a flow is among the first `k + 1` of a list
pub open spec fn among_first(list: Seq<u32>, k: int, b: u32) -> bool {
    exists|i: int| 0 <= i <= k && i < list.len() && #[trigger] list[i] == b
}

/// New flows go first: while one of them has credit and a head that is neither
/// stale nor too large, a service sends nothing but from that flow and the new
/// flows ahead of it, and leaves every other flow, however long its queue, as it
/// is. A head that does not fit, of a flow ahead, can hold the service up.
pub proof fn law_new_flows_preempt(
    s: Schedule,
    k: int,
    room: int,
    now: int,
    aqm: Option<DatagramAqmConfig>,
)
    requires
        s.wf(),
        0 <= k < s.new_flows.len(),
        s.flows[s.new_flows[k]].deficit > 0,
        s.flows[s.new_flows[k]].queue.len() > 0,
        deliverable(s.flows[s.new_flows[k]].queue[0], room, now, aqm),
    ensures
        ({
            let after = served(s, room, now, aqm);
            &&& match after.sent {
                Some((flow, _)) => among_first(s.new_flows, k, flow),
                None => head_refused(after.schedule, room) && among_first(
                    s.new_flows,
                    k - 1,
                    after.schedule.front(),
                ),
            }
            &&& forall|c: u32|
                #![trigger after.schedule.flows.contains_key(c)]
                #![trigger s.flows.contains_key(c)]
                !among_first(s.new_flows, k, c) ==> {
                    &&& after.schedule.flows.contains_key(c) <==> s.flows.contains_key(c)
                    &&& s.flows.contains_key(c) ==> after.schedule.flows[c] == s.flows[c]
                }
        }),
    decreases
            total(s.flows, Measure::Datagrams),
            s.flows.dom().len(),
            s.new_flows.len(),
            total(s.flows, Measure::Debt),
{
    lemma_turn(s, room, now, aqm);
    lemma_front_active(s);
    let turn = s.turn(room, now, aqm);
    let t = turn_next(turn, s);
    let front = s.front();
    assert(s.new_flows[0] == front);
    assert(among_first(s.new_flows, k, front));
    assert forall|i: int, j: int| 0 <= i < j < s.new_flows.len() implies s.new_flows[i]
        != s.new_flows[j] by {
        assert(s.order()[i] == s.new_flows[i] && s.order()[j] == s.new_flows[j]);
    }
    if turn is Pass {
        assert(k > 0);
        assert(t.new_flows =~= s.new_flows.drop_first());
        assert(t.new_flows[k - 1] == s.new_flows[k]);
        law_new_flows_preempt(t, k - 1, room, now, aqm);
        assert forall|c: u32, m: int| among_first(t.new_flows, m - 1, c) implies among_first(
            s.new_flows,
            m,
            c,
        ) by {
            let i = choose|i: int|
                0 <= i <= m - 1 && i < t.new_flows.len() && #[trigger] t.new_flows[i] == c;
            assert(s.new_flows[i + 1] == c);
        }
    } else if turn is Discard {
        assert(k > 0);
        law_new_flows_preempt(t, k, room, now, aqm);
    }
}

/// Queueing a datagram adds it at the end of its flow and nothing else.
pub proof fn law_enqueue_adds_one(s: Schedule, b: u32, d: QueuedDatagram, c: u32)
    requires
        s.wf(),
    ensures
        s.enqueued(b, d).wf(),
        s.enqueued(b, d).queued() == s.queued() + 1,
        s.enqueued(b, d).backlog() == s.backlog() + d.len(),
        queue_of(s.enqueued(b, d), c) == if c == b {
            queue_of(s, c).push(d)
        } else {
            queue_of(s, c)
        },
{
    lemma_enqueued(s, b, d);
    assert(Seq::<QueuedDatagram>::empty().push(d) =~= seq![d]);
}

/// After pruning, every datagram queued is small enough, every flow keeps its
/// small enough ones in order, and a packet with room for the largest of them
/// fits every head.
pub proof fn law_pruned_queues_are_sendable(s: Schedule, max_payload: int, b: u32, room: int)
    requires
        s.flows.contains_key(b),
        frame_size(max_payload, true) <= room,
    ensures
        queue_of(s.pruned(max_payload), b) == queue_of(s, b).filter(
            |d: QueuedDatagram| d.len() <= max_payload,
        ),
        forall|i: int|
            0 <= i < queue_of(s.pruned(max_payload), b).len() ==> {
                &&& (#[trigger] queue_of(s.pruned(max_payload), b)[i]).len() <= max_payload
                &&& frame_size(queue_of(s.pruned(max_payload), b)[i].len() as int, true) <= room
            },
{
    let fits = |d: QueuedDatagram| d.len() <= max_payload;
    let kept = queue_of(s.pruned(max_payload), b);
    assert forall|i: int| 0 <= i < kept.len() implies (#[trigger] kept[i]).len() <= max_payload by {
        queue_of(s, b).lemma_filter_pred(fits, i);
        assert(fits(kept[i]));
    }
}

/// After pruning, no datagram gets stuck: a packet with room for the largest
/// payload that was kept takes any head, so that a service sends something or
/// there is nothing left to send.
pub proof fn law_pruned_queues_do_not_stall(
    s: Schedule,
    max_payload: int,
    room: int,
    now: int,
    aqm: Option<DatagramAqmConfig>,
)
    requires
        s.wf(),
        frame_size(max_payload, true) <= room,
    ensures
        ({
            let after = served(s.pruned(max_payload), room, now, aqm);
            after.sent is Some || after.schedule.flows == Map::<u32, FlowModel>::empty()
        }),
{
    let pruned = s.pruned(max_payload);
    let after = served(pruned, room, now, aqm);
    lemma_pruned_wf(s, max_payload);
    law_service_stops(pruned, room, now, aqm);
    if after.sent is None && head_refused(after.schedule, room) {
        let b = after.schedule.front();
        law_service_keeps_order(pruned, room, now, aqm, b);
        lemma_front_active(after.schedule);
        let (rest, queue) = (queue_of(after.schedule, b), queue_of(pruned, b));
        assert(rest[0] == queue[queue.len() - rest.len()]);
        law_pruned_queues_are_sendable(s, max_payload, b, room);
    }
}

/// It is the turn of the first new flow, or, where there is none, of the first in
/// the round-robin list.
pub proof fn law_new_flows_have_the_turn(s: Schedule)
    ensures
        s.new_flows.len() > 0 ==> s.front() == s.new_flows[0],
        s.new_flows.len() == 0 ==> s.front() == s.old_flows[0],
        s.idle() <==> s.new_flows.len() == 0 && s.old_flows.len() == 0,
{
}

/// A flow with credit offers its head to the queue management, whichever list it
/// is on: the head is discarded exactly where the flow's controller decides so, on
/// the head's time in the queue and all that is queued, and the controller moves
/// on as it decides.
pub proof fn law_offered_head_is_managed(
    s: Schedule,
    room: int,
    now: int,
    config: DatagramAqmConfig,
)
    requires
        s.wf(),
        !s.idle(),
        s.flows[s.front()].deficit > 0,
        s.flows[s.front()].queue.len() > 0,
    ensures
        ({
            let flow = s.flows[s.front()];
            let queued_at = flow.queue[0].queued_at.nanos as int;
            let sojourn = if now >= queued_at {
                now - queued_at
            } else {
                0
            };
            let turn = s.turn(room, now, Some(config));
            let (drop, codel) = codel_decision(
                flow.codel,
                sojourn,
                s.backlog() as int,
                now,
                config,
            );
            &&& turn is Discard <==> drop
            &&& turn_next(turn, s).flows[s.front()].codel == codel
        }),
{
}

/// Without queue management no head is discarded and no controller moves on.
pub proof fn law_unmanaged_head_is_not_discarded(s: Schedule, room: int, now: int, b: u32)
    requires
        s.wf(),
        !s.idle(),
    ensures
        ({
            let turn = s.turn(room, now, None);
            &&& turn !is Discard
            &&& turn_next(turn, s).flows.contains_key(b) ==> turn_next(turn, s).flows[b].codel
                == s.flows[b].codel
        }),
{
    lemma_front_active(s);
}

/// A head that is not discarded is sent where its frame fits and stays where it
/// does not. Sending costs the frame's size of credit. A head that goes leaves the
/// rest of its queue; the flow keeps its place, and no other flow changes.
pub proof fn law_offered_head_goes_or_stays(
    s: Schedule,
    room: int,
    now: int,
    aqm: Option<DatagramAqmConfig>,
    c: u32,
)
    requires
        s.wf(),
        !s.idle(),
        s.flows[s.front()].deficit > 0,
        s.flows[s.front()].queue.len() > 0,
    ensures
        ({
            let (b, flow) = (s.front(), s.flows[s.front()]);
            let size = frame_size(flow.queue[0].datagram.payload().len() as int, true);
            let turn = s.turn(room, now, aqm);
            let t = turn_next(turn, s);
            &&& turn !is Pass && turn !is Idle
            &&& turn !is Discard ==> (turn is Send <==> size <= room)
            &&& turn matches Turn::Send(_, d) ==> d == flow.queue[0]
            &&& turn is Refuse ==> t.flows[b].queue == flow.queue
            &&& turn !is Refuse ==> t.flows[b].queue == flow.queue.drop_first()
            &&& t.flows[b].deficit == flow.deficit - (if turn is Send {
                size
            } else {
                0
            })
            &&& t.new_flows == s.new_flows && t.old_flows == s.old_flows
            &&& t.flows.contains_key(c) <==> s.flows.contains_key(c)
            &&& c != b ==> t.flows[c] == s.flows[c]
        }),
{
    lemma_front_active(s);
}

/// A flow without credit gets 15000 bytes of it and goes to the end of the
/// round-robin list; nothing else changes.
pub proof fn law_flow_without_credit_waits_a_round(
    s: Schedule,
    room: int,
    now: int,
    aqm: Option<DatagramAqmConfig>,
    c: u32,
)
    requires
        s.wf(),
        !s.idle(),
        s.flows[s.front()].deficit <= 0,
    ensures
        ({
            let (b, flow) = (s.front(), s.flows[s.front()]);
            let turn = s.turn(room, now, aqm);
            let t = turn_next(turn, s);
            &&& turn is Pass
            &&& t.flows[b].deficit == flow.deficit + 15_000
            &&& t.flows[b].queue == flow.queue
            &&& t.flows[b].codel == flow.codel
            &&& s.new_flows.len() > 0 ==> t.new_flows == s.new_flows.drop_first() && t.old_flows
                == s.old_flows.push(b)
            &&& s.new_flows.len() == 0 ==> t.new_flows == s.new_flows && t.old_flows
                == s.old_flows.drop_first().push(b)
            &&& t.flows.contains_key(c) <==> s.flows.contains_key(c)
            &&& c != b ==> t.flows[c] == s.flows[c]
        }),
{
    lemma_front_active(s);
}

/// A drained flow with credit goes from the new flows to the end of the
/// round-robin list, and from that list it goes for good; nothing else changes.
pub proof fn law_drained_flow_gives_way(
    s: Schedule,
    room: int,
    now: int,
    aqm: Option<DatagramAqmConfig>,
    c: u32,
)
    requires
        s.wf(),
        !s.idle(),
        s.flows[s.front()].deficit > 0,
        s.flows[s.front()].queue.len() == 0,
    ensures
        ({
            let b = s.front();
            let turn = s.turn(room, now, aqm);
            let t = turn_next(turn, s);
            &&& turn is Pass
            &&& s.new_flows.len() > 0 ==> {
                &&& t.flows == s.flows
                &&& t.new_flows == s.new_flows.drop_first()
                &&& t.old_flows == s.old_flows.push(b)
            }
            &&& s.new_flows.len() == 0 ==> {
                &&& !t.flows.contains_key(b)
                &&& t.new_flows == s.new_flows
                &&& t.old_flows == s.old_flows.drop_first()
            }
            &&& c != b ==> {
                &&& t.flows.contains_key(c) <==> s.flows.contains_key(c)
                &&& t.flows[c] == s.flows[c]
            }
        }),
{
}

/// A service goes on over turns that decide nothing and over discarded heads,
/// which it counts, and ends with the first turn that sends, refuses or finds no
/// flow.
pub proof fn law_service_goes_on_until_decided(
    s: Schedule,
    room: int,
    now: int,
    aqm: Option<DatagramAqmConfig>,
)
    requires
        s.wf(),
    ensures
        ({
            let after = served(s, room, now, aqm);
            let turn = s.turn(room, now, aqm);
            let rest = served(turn_next(turn, s), room, now, aqm);
            &&& turn is Pass ==> after == rest
            &&& turn is Discard ==> {
                &&& after.schedule == rest.schedule
                &&& after.sent == rest.sent
                &&& after.discarded == rest.discarded + 1
            }
            &&& turn is Send || turn is Refuse || turn is Idle ==> {
                &&& after.schedule == turn_next(turn, s)
                &&& after.discarded == 0
            }
            &&& turn is Refuse || turn is Idle ==> after.sent is None
            &&& turn matches Turn::Send(_, d) ==> after.sent == Some((s.front(), d))
            &&& turn is Idle <==> s.idle()
        }),
{
    lemma_turn(s, room, now, aqm);
}

/// Whether an event puts a head of flow `b` to the queue management: it is the
/// flow's turn, and it has credit and a datagram queued
pub open spec fn offered(s: Schedule, e: Event, b: u32) -> bool {
    &&& e is Turn
    &&& !s.idle()
    &&& s.front() == b
    &&& s.flows[b].deficit > 0
    &&& s.flows[b].queue.len() > 0
}

/// What a controller is asked where a head of flow `b` is put to it
pub open spec fn offer(s: Schedule, e: Event, b: u32) -> Dequeue {
    let now = e->now;
    let queued_at = s.flows[b].queue[0].queued_at.nanos as int;
    Dequeue {
        sojourn: if now >= queued_at {
            now - queued_at
        } else {
            0
        },
        backlog: s.backlog() as int,
        now,
    }
}

/// What the controller of flow `b` is asked during a run, in order
pub open spec fn offers(s: Schedule, events: Seq<Event>, b: u32) -> Seq<Dequeue>
    decreases events.len(),
{
    if events.len() == 0 {
        Seq::empty()
    } else {
        let rest = offers(step(s, events[0]), events.drop_first(), b);
        if offered(s, events[0], b) {
            seq![offer(s, events[0], b)] + rest
        } else {
            rest
        }
    }
}

/// Whether every turn of a run is taken under the same queue management
pub open spec fn managed_by(events: Seq<Event>, config: DatagramAqmConfig) -> bool {
    forall|i: int|
        0 <= i < events.len() && (#[trigger] events[i]) is Turn ==> events[i]->aqm == Some(config)
}

/// A flow's controller is asked about each head that the flow offers, and about
/// nothing else, as long as the flow is backlogged: on the new list, on the
/// round-robin list, through arrivals, evictions and pruning.
pub proof fn law_flow_is_managed_throughout(
    s: Schedule,
    events: Seq<Event>,
    b: u32,
    config: DatagramAqmConfig,
)
    requires
        s.wf(),
        stays_backlogged(s, events, b),
        managed_by(events, config),
    ensures
        run(s, events).wf(),
        queue_of(run(s, events), b).len() > 0,
        run(s, events).flows[b].codel == codel_after(
            s.flows[b].codel,
            offers(s, events, b),
            config,
        ),
    decreases events.len(),
{
    if events.len() > 0 {
        let e = events[0];
        let t = step(s, e);
        let rest = events.drop_first();
        reveal_with_fuel(stays_backlogged, 2);
        lemma_step_wf(s, e);
        assert forall|i: int|
            0 <= i < rest.len() && (#[trigger] rest[i]) is Turn implies rest[i]->aqm == Some(
            config,
        ) by {
            assert(rest[i] == events[i + 1]);
        }
        law_flow_is_managed_throughout(t, rest, b, config);
        if offered(s, e, b) {
            lemma_codel_after_first(
                s.flows[b].codel,
                offer(s, e, b),
                offers(t, rest, b),
                config,
            );
        } else {
            if e is Turn && !s.idle() {
                lemma_front_active(s);
            }
            assert(t.flows[b].codel == s.flows[b].codel);
        }
    }
}

/// Over a run, a head that a backlogged flow offers is discarded exactly where the
/// controller, from all that it was asked since the run began, decides so.
pub proof fn law_offered_head_is_managed_throughout(
    s: Schedule,
    events: Seq<Event>,
    last: Event,
    b: u32,
    config: DatagramAqmConfig,
)
    requires
        s.wf(),
        stays_backlogged(s, events, b),
        managed_by(events.push(last), config),
        offered(run(s, events), last, b),
    ensures
        ({
            let u = run(s, events);
            u.turn(last->room, last->now, last->aqm) is Discard <==> codel_drops(
                s.flows[b].codel,
                offers(s, events, b).push(offer(u, last, b)),
                config,
            )
        }),
{
    assert forall|i: int|
        0 <= i < events.len() && (#[trigger] events[i]) is Turn implies events[i]->aqm == Some(
        config,
    ) by {
        assert(events.push(last)[i] == events[i]);
    }
    assert(events.push(last)[events.len() as int] == last);
    law_flow_is_managed_throughout(s, events, b, config);
    let asked = offers(s, events, b).push(offer(run(s, events), last, b));
    assert(asked.drop_last() =~= offers(s, events, b));
}

/// A flow whose queue stands loses a head, on whichever list it is and whatever
/// else goes on: if every head that it offers is above target with more than 3000
/// bytes queued, the first one offered an interval or more after the first of all
/// is discarded.
pub proof fn law_standing_flow_loses_a_head(
    s: Schedule,
    events: Seq<Event>,
    last: Event,
    b: u32,
    config: DatagramAqmConfig,
)
    requires
        s.wf(),
        stays_backlogged(s, events, b),
        managed_by(events.push(last), config),
        s.flows[b].codel.first_above is None,
        !s.flows[b].codel.dropping,
        offered(run(s, events), last, b),
        ({
            let asked = offers(s, events, b).push(offer(run(s, events), last, b));
            &&& forall|i: int|
                0 <= i < asked.len() ==> (#[trigger] asked[i]).sojourn >= config.target@
                    && asked[i].backlog > 3000
            &&& forall|i: int|
                0 <= i < asked.len() - 1 ==> (#[trigger] asked[i]).now < asked[0].now
                    + config.interval@
            &&& asked.last().now >= asked[0].now + config.interval@
        }),
    ensures
        ({
            let u = run(s, events);
            &&& u.turn(last->room, last->now, last->aqm) is Discard
            &&& queue_of(step(u, last), b) == queue_of(u, b).drop_first()
        }),
{
    let u = run(s, events);
    let asked = offers(s, events, b).push(offer(u, last, b));
    assert forall|i: int|
        0 <= i < events.len() && (#[trigger] events[i]) is Turn implies events[i]->aqm == Some(
        config,
    ) by {
        assert(events.push(last)[i] == events[i]);
    }
    law_flow_is_managed_throughout(s, events, b, config);
    law_offered_head_is_managed_throughout(s, events, last, b, config);
    assert(above_target_since(asked, 0, config));
    law_standing_queue_is_dropped(s.flows[b].codel, asked, config);
    lemma_turn_queues(u, last->room, last->now, last->aqm, b);
}

/// Whether flow `b` is the only one with datagrams queued, and its head has stood
/// above target with more than 3000 bytes queued
pub open spec fn stands_alone(
    s: Schedule,
    b: u32,
    now: int,
    config: DatagramAqmConfig,
) -> bool {
    &&& queue_of(s, b).len() > 0
    &&& forall|c: u32| c != b ==> (#[trigger] queue_of(s, c)).len() == 0
    &&& now - queue_of(s, b)[0].queued_at.nanos >= config.target@
    &&& s.backlog() > 3000
}

/// A service of a flow that stands alone asks its controller: it discards
/// something exactly where that decides to, and where it does not, the controller
/// moves on by that one decision.
pub proof fn law_service_asks_the_controller(
    s: Schedule,
    b: u32,
    room: int,
    now: int,
    config: DatagramAqmConfig,
)
    requires
        s.wf(),
        stands_alone(s, b, now, config),
    ensures
        ({
            let after = served(s, room, now, Some(config));
            let (drop, codel) = codel_decision(
                s.flows[b].codel,
                now - s.flows[b].queue[0].queued_at.nanos,
                s.backlog() as int,
                now,
                config,
            );
            &&& after.discarded > 0 <==> drop
            &&& !drop ==> after.schedule.flows.contains_key(b) && after.schedule.flows[b].codel
                == codel
        }),
    decreases
            total(s.flows, Measure::Datagrams),
            s.flows.dom().len(),
            s.new_flows.len(),
            total(s.flows, Measure::Debt),
{
    let aqm = Some(config);
    lemma_turn(s, room, now, aqm);
    let turn = s.turn(room, now, aqm);
    let t = turn_next(turn, s);
    assert(s.flows.contains_key(b));
    if s.idle() {
        assert(s.order().contains(b));
    } else {
        lemma_front_active(s);
        let front = s.front();
        if front != b {
            assert(queue_of(s, front).len() == 0);
        }
        if turn is Pass {
            lemma_pass_keeps_backlog(s, room, now, aqm);
            assert forall|c: u32| #[trigger] queue_of(t, c) == queue_of(s, c) by {
                lemma_turn_queues(s, room, now, aqm, c);
            }
            assert forall|c: u32| c != b implies (#[trigger] queue_of(t, c)).len() == 0 by {
                assert(queue_of(s, c).len() == 0);
            }
            assert(t.flows.contains_key(b) && t.flows[b].codel == s.flows[b].codel);
            law_service_asks_the_controller(t, b, room, now, config);
        }
    }
}

/// The queues after services at given times, each with its room
pub open spec fn after_services(
    s: Schedule,
    visits: Seq<(int, int)>,
    config: DatagramAqmConfig,
) -> Schedule
    decreases visits.len(),
{
    if visits.len() == 0 {
        s
    } else {
        let (room, now) = visits.last();
        served(after_services(s, visits.drop_last(), config), room, now, Some(config)).schedule
    }
}

/// Whether each service finds flow `b` standing alone
pub open spec fn always_stands_alone(
    s: Schedule,
    b: u32,
    visits: Seq<(int, int)>,
    config: DatagramAqmConfig,
) -> bool
    decreases visits.len(),
{
    visits.len() > 0 ==> {
        let before = visits.drop_last();
        &&& always_stands_alone(s, b, before, config)
        &&& stands_alone(after_services(s, before, config), b, visits.last().1, config)
    }
}

proof fn lemma_services_before_the_interval(
    s: Schedule,
    b: u32,
    visits: Seq<(int, int)>,
    config: DatagramAqmConfig,
)
    requires
        s.wf(),
        visits.len() > 0,
        s.flows[b].codel.first_above is None,
        !s.flows[b].codel.dropping,
        always_stands_alone(s, b, visits, config),
        forall|i: int|
            0 <= i < visits.len() ==> (#[trigger] visits[i]).1 < visits[0].1 + config.interval@,
    ensures
        ({
            let before = after_services(s, visits.drop_last(), config);
            let after = after_services(s, visits, config);
            let (room, now) = visits.last();
            &&& before.wf() && after.wf()
            &&& served(before, room, now, Some(config)).discarded == 0
            &&& after.flows[b].codel.first_above == Some(visits[0].1 + config.interval@)
            &&& !after.flows[b].codel.dropping
        }),
    decreases visits.len(),
{
    let prefix = visits.drop_last();
    let (room, now) = visits.last();
    let before = after_services(s, prefix, config);
    if prefix.len() > 0 {
        assert(forall|i: int| 0 <= i < prefix.len() ==> prefix[i] == #[trigger] visits[i]);
        lemma_services_before_the_interval(s, b, prefix, config);
    }
    law_service_asks_the_controller(before, b, room, now, config);
    law_service_keeps_order(before, room, now, Some(config), b);
}

/// A standing queue loses datagrams to a service: where each of some services
/// finds a flow alone and above target, the first one that comes an interval or
/// more after the first of all discards something, and none before it does, on
/// whichever list the flow is.
pub proof fn law_standing_queue_is_dropped_by_services(
    s: Schedule,
    b: u32,
    visits: Seq<(int, int)>,
    config: DatagramAqmConfig,
)
    requires
        s.wf(),
        visits.len() > 1,
        s.flows[b].codel.first_above is None,
        !s.flows[b].codel.dropping,
        always_stands_alone(s, b, visits, config),
        forall|i: int|
            0 <= i < visits.len() - 1 ==> (#[trigger] visits[i]).1 < visits[0].1 + config.interval@,
        visits.last().1 >= visits[0].1 + config.interval@,
    ensures
        ({
            let prefix = visits.drop_last();
            let (last, due) = (prefix.last(), visits.last());
            &&& served(
                after_services(s, prefix.drop_last(), config),
                last.0,
                last.1,
                Some(config),
            ).discarded == 0
            &&& served(after_services(s, prefix, config), due.0, due.1, Some(config)).discarded > 0
        }),
{
    let prefix = visits.drop_last();
    assert(forall|i: int| 0 <= i < prefix.len() ==> prefix[i] == #[trigger] visits[i]);
    lemma_services_before_the_interval(s, b, prefix, config);
    law_service_asks_the_controller(
        after_services(s, prefix, config),
        b,
        visits.last().0,
        visits.last().1,
        config,
    );
}

} // verus!
