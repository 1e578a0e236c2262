//! Deficit round robin shares the link by bytes: two flows that stay backlogged
//! are sent the same amount, but for a bounded difference, however long the run.
use vstd::prelude::*;

use crate::config::DatagramAqmConfig;
use crate::flow::{QueuedDatagram, FQ_QUANTUM};
use crate::frame::frame_size;
use crate::schedule::{
    lemma_enqueued, lemma_evicted, lemma_pruned_wf, lemma_turn, served, total, turn_next, Measure,
    Schedule, Turn,
};
use crate::service::queue_of;

verus! {

/// Something that happens to the outgoing queues
pub ghost enum Event {
    /// The scheduler takes a turn.
    Turn { room: int, now: int, aqm: Option<DatagramAqmConfig> },
    /// A datagram is queued.
    Arrival { bucket: u32, datagram: QueuedDatagram },
    /// A flow loses its head, if it has one.
    Eviction { bucket: u32 },
    /// Datagrams with too large a payload are discarded.
    Pruning { max_payload: int },
}

/// The queues after an event
pub open spec fn step(s: Schedule, e: Event) -> Schedule {
    match e {
        Event::Turn { room, now, aqm } => turn_next(s.turn(room, now, aqm), s),
        Event::Arrival { bucket, datagram } => s.enqueued(bucket, datagram),
        Event::Eviction { bucket } => if queue_of(s, bucket).len() > 0 {
            s.evicted(bucket)
        } else {
            s
        },
        Event::Pruning { max_payload } => s.pruned(max_payload),
    }
}

/// Frame bytes that an event sends of a flow
pub open spec fn step_sends(s: Schedule, e: Event, b: u32) -> int {
    match e {
        Event::Turn { room, now, aqm } => match s.turn(room, now, aqm) {
            Turn::Send(_, d) => if s.front() == b {
                frame_size(d.len() as int, true)
            } else {
                0
            },
            _ => 0,
        },
        _ => 0,
    }
}

/// Whether an event is the end of a flow's round, at which it gets new credit
pub open spec fn step_refills(s: Schedule, e: Event, b: u32) -> int {
    if e is Turn && !s.idle() && s.front() == b && s.flows[b].deficit <= 0 {
        1
    } else {
        0
    }
}

/// The queues after a run of events
pub open spec fn run(s: Schedule, events: Seq<Event>) -> Schedule
    decreases events.len(),
{
    if events.len() == 0 {
        s
    } else {
        run(step(s, events[0]), events.drop_first())
    }
}

/// Frame bytes sent of a flow during a run
pub open spec fn run_sends(s: Schedule, events: Seq<Event>, b: u32) -> int
    decreases events.len(),
{
    if events.len() == 0 {
        0
    } else {
        step_sends(s, events[0], b) + run_sends(step(s, events[0]), events.drop_first(), b)
    }
}

/// Rounds of credit that a flow gets during a run
pub open spec fn run_refills(s: Schedule, events: Seq<Event>, b: u32) -> int
    decreases events.len(),
{
    if events.len() == 0 {
        0
    } else {
        step_refills(s, events[0], b) + run_refills(step(s, events[0]), events.drop_first(), b)
    }
}

/// Whether a flow has datagrams queued at every point of a run
pub open spec fn stays_backlogged(s: Schedule, events: Seq<Event>, b: u32) -> bool
    decreases events.len(),
{
    &&& queue_of(s, b).len() > 0
    &&& events.len() > 0 ==> stays_backlogged(step(s, events[0]), events.drop_first(), b)
}

/// Whether no frame sent of a flow during a run is larger than `size` bytes
pub open spec fn sends_within(s: Schedule, events: Seq<Event>, b: u32, size: int) -> bool
    decreases events.len(),
{
    events.len() > 0 ==> {
        &&& step_sends(s, events[0], b) <= size
        &&& sends_within(step(s, events[0]), events.drop_first(), b, size)
    }
}

/// Whether flow `a` comes before flow `c` in the order of service
pub open spec fn precedes(order: Seq<u32>, a: u32, c: u32) -> bool {
    exists|i: int, j: int|
        0 <= i < j < order.len() && #[trigger] order[i] == a && #[trigger] order[j] == c
}

spec fn ahead(s: Schedule, a: u32, c: u32) -> int {
    if precedes(s.order(), a, c) {
        1
    } else {
        0
    }
}

/// Every event keeps the schedule well-formed.
pub proof fn lemma_step_wf(s: Schedule, e: Event)
    requires
        s.wf(),
    ensures
        step(s, e).wf(),
{
    match e {
        Event::Turn { room, now, aqm } => {
            lemma_turn(s, room, now, aqm);
        },
        Event::Arrival { bucket, datagram } => {
            lemma_enqueued(s, bucket, datagram);
        },
        Event::Eviction { bucket } => {
            if queue_of(s, bucket).len() > 0 {
                lemma_evicted(s, bucket);
            }
        },
        Event::Pruning { max_payload } => {
            lemma_pruned_wf(s, max_payload);
        },
    }
}

proof fn lemma_step_credit(s: Schedule, e: Event, b: u32, size: int)
    requires
        s.wf(),
        queue_of(s, b).len() > 0,
        queue_of(step(s, e), b).len() > 0,
        step_sends(s, e, b) <= size,
        s.flows[b].deficit > -size,
    ensures
        step(s, e).flows[b].deficit == s.flows[b].deficit + FQ_QUANTUM * step_refills(s, e, b)
            - step_sends(s, e, b),
        step(s, e).flows[b].deficit > -size,
{
    if e is Turn && !s.idle() {
        assert(s.order()[0] == s.front());
        assert(s.order().contains(s.front()));
    }
}

/// A flow's credit is what it had, plus a quantum for each round, less what it sent.
pub proof fn law_credit_is_conserved(s: Schedule, events: Seq<Event>, b: u32, size: int)
    requires
        s.wf(),
        stays_backlogged(s, events, b),
        sends_within(s, events, b, size),
        s.flows[b].deficit > -size,
    ensures
        run(s, events).wf(),
        run(s, events).flows[b].deficit == s.flows[b].deficit + FQ_QUANTUM * run_refills(
            s,
            events,
            b,
        ) - run_sends(s, events, b),
        -size < run(s, events).flows[b].deficit <= FQ_QUANTUM,
    decreases events.len(),
{
    assert(s.flows.contains_key(b));
    if events.len() > 0 {
        let e = events[0];
        let rest = events.drop_first();
        reveal_with_fuel(stays_backlogged, 2);
        lemma_step_wf(s, e);
        lemma_step_credit(s, e, b, size);
        law_credit_is_conserved(step(s, e), rest, b, size);
        assert(FQ_QUANTUM * (step_refills(s, e, b) + run_refills(step(s, e), rest, b)) == FQ_QUANTUM
            * step_refills(s, e, b) + FQ_QUANTUM * run_refills(step(s, e), rest, b))
            by (nonlinear_arith);
    }
}

proof fn lemma_precedes_exclusive(order: Seq<u32>, a: u32, c: u32)
    requires
        order.no_duplicates(),
        order.contains(a),
        order.contains(c),
        a != c,
    ensures
        precedes(order, a, c) <==> !precedes(order, c, a),
{
    let i = choose|i: int| 0 <= i < order.len() && order[i] == a;
    let j = choose|j: int| 0 <= j < order.len() && order[j] == c;
    if i < j {
        assert(precedes(order, a, c));
    } else {
        assert(precedes(order, c, a));
    }
}

/// Dropping the front and perhaps putting it at the back keeps the order of all others.
proof fn lemma_precedes_rotated(before: Seq<u32>, after: Seq<u32>, a: u32, c: u32)
    requires
        before.len() > 0,
        a != before[0],
        c != before[0],
        after == before.drop_first() || after == before.drop_first().push(before[0]),
    ensures
        precedes(before, a, c) <==> precedes(after, a, c),
{
    if precedes(before, a, c) {
        let (i, j) = choose|i: int, j: int|
            0 <= i < j < before.len() && #[trigger] before[i] == a && #[trigger] before[j] == c;
        assert(after[i - 1] == a && after[j - 1] == c);
    }
    if precedes(after, a, c) {
        let (i, j) = choose|i: int, j: int|
            0 <= i < j < after.len() && #[trigger] after[i] == a && #[trigger] after[j] == c;
        assert(before[i + 1] == a && before[j + 1] == c);
    }
}

proof fn lemma_precedes_inserted(before: Seq<u32>, after: Seq<u32>, k: int, a: u32, c: u32)
    requires
        0 <= k <= before.len(),
        after.len() == before.len() + 1,
        forall|i: int| 0 <= i < k ==> after[i] == #[trigger] before[i],
        forall|i: int| k <= i < before.len() ==> after[i + 1] == #[trigger] before[i],
        a != after[k],
        c != after[k],
    ensures
        precedes(before, a, c) <==> precedes(after, a, c),
{
    if precedes(before, a, c) {
        let (i, j) = choose|i: int, j: int|
            0 <= i < j < before.len() && #[trigger] before[i] == a && #[trigger] before[j] == c;
        let i2 = if i < k {
            i
        } else {
            i + 1
        };
        let j2 = if j < k {
            j
        } else {
            j + 1
        };
        assert(after[i2] == a && after[j2] == c);
    }
    if precedes(after, a, c) {
        let (i, j) = choose|i: int, j: int|
            0 <= i < j < after.len() && #[trigger] after[i] == a && #[trigger] after[j] == c;
        let i2 = if i < k {
            i
        } else {
            i - 1
        };
        let j2 = if j < k {
            j
        } else {
            j - 1
        };
        assert(before[i2] == a && before[j2] == c);
    }
}

/// A flow that gets new credit falls behind every other, and nothing else
/// changes the order of two backlogged flows.
proof fn lemma_step_order(s: Schedule, e: Event, a: u32, c: u32)
    requires
        s.wf(),
        a != c,
        queue_of(s, a).len() > 0,
        queue_of(s, c).len() > 0,
        queue_of(step(s, e), a).len() > 0,
        queue_of(step(s, e), c).len() > 0,
    ensures
        step_refills(s, e, a) - step_refills(s, e, c) == ahead(s, a, c) - ahead(step(s, e), a, c),
{
    let t = step(s, e);
    let before = s.order();
    let after = t.order();
    lemma_step_wf(s, e);
    assert(s.flows.contains_key(a) && s.flows.contains_key(c));
    assert(t.flows.contains_key(a) && t.flows.contains_key(c));
    lemma_precedes_exclusive(before, a, c);
    lemma_precedes_exclusive(after, a, c);
    match e {
        Event::Turn { room, now, aqm } => {
            if s.idle() {
                assert(before.contains(a));
            } else {
                let front = s.front();
                let flow = s.flows[front];
                assert(before[0] == front);
                assert(before.contains(front));
                if flow.deficit <= 0 {
                    assert(after =~= before.drop_first().push(front));
                    if front == a {
                        lemma_front_precedes(before, a, c);
                        lemma_last_follows(after, c, a);
                    } else if front == c {
                        lemma_front_precedes(before, c, a);
                        lemma_last_follows(after, a, c);
                    } else {
                        lemma_precedes_rotated(before, after, a, c);
                    }
                } else if flow.queue.len() == 0 {
                    if s.new_flows.len() > 0 {
                        assert(after =~= before.drop_first().push(front));
                    } else {
                        assert(after =~= before.drop_first());
                    }
                    lemma_precedes_rotated(before, after, a, c);
                } else {
                    assert(after =~= before);
                }
            }
        },
        Event::Arrival { bucket, datagram } => {
            if s.flows.contains_key(bucket) {
                assert(after =~= before);
            } else {
                lemma_precedes_inserted(before, after, s.new_flows.len() as int, a, c);
            }
        },
        Event::Eviction { bucket } => {
            assert(after =~= before);
        },
        Event::Pruning { max_payload } => {
            assert(after =~= before);
        },
    }
}

proof fn lemma_front_precedes(order: Seq<u32>, a: u32, c: u32)
    requires
        order.len() > 0,
        order[0] == a,
        order.contains(c),
        a != c,
    ensures
        precedes(order, a, c),
{
    let j = choose|j: int| 0 <= j < order.len() && order[j] == c;
    assert(order[0] == a && order[j] == c);
}

proof fn lemma_last_follows(order: Seq<u32>, a: u32, c: u32)
    requires
        order.len() > 0,
        order.last() == c,
        order.contains(a),
        a != c,
    ensures
        precedes(order, a, c),
{
    let i = choose|i: int| 0 <= i < order.len() && order[i] == a;
    assert(order[i] == a && order[order.len() - 1] == c);
}

proof fn lemma_rounds(s: Schedule, events: Seq<Event>, a: u32, c: u32)
    requires
        s.wf(),
        a != c,
        stays_backlogged(s, events, a),
        stays_backlogged(s, events, c),
    ensures
        run_refills(s, events, a) - run_refills(s, events, c) == ahead(s, a, c) - ahead(
            run(s, events),
            a,
            c,
        ),
    decreases events.len(),
{
    if events.len() > 0 {
        let e = events[0];
        reveal_with_fuel(stays_backlogged, 2);
        lemma_step_wf(s, e);
        lemma_step_order(s, e, a, c);
        lemma_rounds(step(s, e), events.drop_first(), a, c);
    }
}

/// Two flows that stay backlogged take turns: neither gets two rounds of credit
/// more than the other.
pub proof fn law_rounds_alternate(s: Schedule, events: Seq<Event>, a: u32, c: u32)
    requires
        s.wf(),
        a != c,
        stays_backlogged(s, events, a),
        stays_backlogged(s, events, c),
    ensures
        -1 <= run_refills(s, events, a) - run_refills(s, events, c) <= 1,
{
    lemma_rounds(s, events, a, c);
}

/// Two flows that stay backlogged are sent the same number of bytes but for a
/// difference below three quanta and two frames, whatever the sizes of their
/// datagrams and however long the run. Here `size` is that of the largest frame
/// sent, and exceeds what either flow owes at the start.
pub proof fn law_drr_is_byte_fair(s: Schedule, events: Seq<Event>, a: u32, c: u32, size: int)
    requires
        s.wf(),
        a != c,
        stays_backlogged(s, events, a),
        stays_backlogged(s, events, c),
        sends_within(s, events, a, size),
        sends_within(s, events, c, size),
        s.flows[a].deficit > -size,
        s.flows[c].deficit > -size,
    ensures
        run_sends(s, events, a) - run_sends(s, events, c) < 3 * FQ_QUANTUM + 2 * size,
        run_sends(s, events, c) - run_sends(s, events, a) < 3 * FQ_QUANTUM + 2 * size,
{
    assert(s.flows.contains_key(a) && s.flows.contains_key(c));
    law_credit_is_conserved(s, events, a, size);
    law_credit_is_conserved(s, events, c, size);
    law_rounds_alternate(s, events, a, c);
}

/// `n` turns in a row under the same circumstances
pub open spec fn turns(room: int, now: int, aqm: Option<DatagramAqmConfig>, n: nat) -> Seq<Event> {
    Seq::new(n, |i: int| Event::Turn { room, now, aqm })
}

/// Serving the queues is a run of turns, and what it sends is what they send.
pub proof fn law_service_is_a_run_of_turns(
    s: Schedule,
    room: int,
    now: int,
    aqm: Option<DatagramAqmConfig>,
)
    requires
        s.wf(),
    ensures
        exists|n: nat|
            {
                let after = served(s, room, now, aqm);
                let events = #[trigger] turns(room, now, aqm, n);
                &&& run(s, events) == after.schedule
                &&& forall|b: u32| #[trigger]
                    run_sends(s, events, b) == match after.sent {
                        Some((flow, d)) => if flow == b {
                            frame_size(d.len() as int, true)
                        } else {
                            0
                        },
                        None => 0,
                    }
            },
    decreases
            total(s.flows, Measure::Datagrams),
            s.flows.dom().len(),
            s.new_flows.len(),
            total(s.flows, Measure::Debt),
{
    lemma_turn(s, room, now, aqm);
    let turn = s.turn(room, now, aqm);
    let t = turn_next(turn, s);
    if turn is Pass || turn is Discard {
        law_service_is_a_run_of_turns(t, room, now, aqm);
        let after = served(t, room, now, aqm);
        let n = choose|n: nat|
            {
                let events = #[trigger] turns(room, now, aqm, n);
                &&& run(t, events) == after.schedule
                &&& forall|b: u32| #[trigger]
                    run_sends(t, events, b) == match after.sent {
                        Some((flow, d)) => if flow == b {
                            frame_size(d.len() as int, true)
                        } else {
                            0
                        },
                        None => 0,
                    }
            };
        assert(turns(room, now, aqm, n + 1).drop_first() =~= turns(room, now, aqm, n));
        assert forall|b: u32| #[trigger]
            run_sends(s, turns(room, now, aqm, n + 1), b) == run_sends(
            t,
            turns(room, now, aqm, n),
            b,
        ) by {}
    } else {
        let events = turns(room, now, aqm, 1);
        reveal_with_fuel(run, 2);
        reveal_with_fuel(run_sends, 2);
        assert(events[0] == Event::Turn { room, now, aqm });
        assert(step(s, events[0]) == t);
    }
}

/// Frame bytes that an event sends, whatever the flow
pub open spec fn step_bytes(s: Schedule, e: Event) -> int {
    match e {
        Event::Turn { room, now, aqm } => match s.turn(room, now, aqm) {
            Turn::Send(_, d) => frame_size(d.len() as int, true),
            _ => 0,
        },
        _ => 0,
    }
}

/// Frame bytes sent during a run, whatever the flows
pub open spec fn run_bytes(s: Schedule, events: Seq<Event>) -> int
    decreases events.len(),
{
    if events.len() == 0 {
        0
    } else {
        step_bytes(s, events[0]) + run_bytes(step(s, events[0]), events.drop_first())
    }
}

/// Whether no frame sent during a run is larger than `size` bytes
pub open spec fn frames_within(s: Schedule, events: Seq<Event>, size: int) -> bool
    decreases events.len(),
{
    events.len() > 0 ==> {
        &&& step_bytes(s, events[0]) <= size
        &&& frames_within(step(s, events[0]), events.drop_first(), size)
    }
}

/// Most bytes that can go out before the new flow at place `k` is at the front:
/// what is left of the front's turn, and a turn of each flow between them
spec fn bytes_ahead(s: Schedule, k: int, size: int) -> int {
    let credit = s.flows[s.new_flows[0]].deficit;
    if k == 0 {
        0
    } else {
        (k - 1) * (FQ_QUANTUM + size) + (if credit > 0 {
            credit + size
        } else {
            0
        })
    }
}

proof fn lemma_bytes_ahead(s: Schedule, events: Seq<Event>, k: int, size: int)
    requires
        s.wf(),
        0 <= k < s.new_flows.len(),
        size >= 0,
        stays_backlogged(s, events, s.new_flows[k]),
        s.flows[s.new_flows[k]].deficit > 0,
        run_sends(s, events, s.new_flows[k]) == 0,
        frames_within(s, events, size),
    ensures
        run_bytes(s, events) <= bytes_ahead(s, k, size) <= k * (FQ_QUANTUM + size),
    decreases events.len(),
{
    let b = s.new_flows[k];
    let front = s.new_flows[0];
    assert(s.order()[0] == front && s.order()[k] == b);
    assert(s.order().contains(front) && s.order().contains(b));
    assert(s.flows.contains_key(front) && s.flows.contains_key(b));
    let turn_size = FQ_QUANTUM + size;
    assert(k > 0 ==> (k - 1) * turn_size + turn_size == k * turn_size) by (nonlinear_arith);
    assert(k > 0 ==> (k - 1) * turn_size >= 0) by (nonlinear_arith)
        requires
            turn_size >= 0,
    ;
    if events.len() > 0 {
        let e = events[0];
        let t = step(s, e);
        let rest = events.drop_first();
        reveal_with_fuel(stays_backlogged, 2);
        lemma_step_wf(s, e);
        lemma_sends_positive(t, rest, b);
        let passes = e is Turn && (s.flows[front].deficit <= 0 || s.flows[front].queue.len() == 0);
        if passes {
            assert(k > 0);
            assert(t.new_flows =~= s.new_flows.drop_first());
            assert(front != b);
            lemma_bytes_ahead(t, rest, k - 1, size);
        } else {
            assert(t.new_flows[k] == b && t.new_flows[0] == front);
            if k == 0 {
                assert(step_sends(s, e, b) == step_bytes(s, e));
            } else {
                assert(front != b);
            }
            lemma_bytes_ahead(t, rest, k, size);
        }
    }
}

proof fn lemma_sends_positive(s: Schedule, events: Seq<Event>, b: u32)
    ensures
        run_sends(s, events, b) >= 0,
    decreases events.len(),
{
    if events.len() > 0 {
        lemma_sends_positive(step(s, events[0]), events.drop_first(), b);
    }
}

/// A new flow does not wait for standing queues: until its first datagram goes
/// out, all others together send at most a quantum and a frame for each new flow
/// that was ahead of it, however much is queued.
pub proof fn law_new_flow_waits_a_quantum_each(
    s: Schedule,
    events: Seq<Event>,
    k: int,
    size: int,
)
    requires
        s.wf(),
        0 <= k < s.new_flows.len(),
        size >= 0,
        stays_backlogged(s, events, s.new_flows[k]),
        s.flows[s.new_flows[k]].deficit > 0,
        run_sends(s, events, s.new_flows[k]) == 0,
        frames_within(s, events, size),
    ensures
        run_bytes(s, events) <= k * (FQ_QUANTUM + size),
{
    lemma_bytes_ahead(s, events, k, size);
}

} // verus!
