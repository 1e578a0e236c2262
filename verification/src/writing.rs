//! What writing guarantees of the queues of a connection, call by call.
use vstd::prelude::*;

use crate::config::DatagramAqmConfig;
use crate::flow::QueuedDatagram;
use crate::frame::{frame, frame_size};
use crate::schedule::served;
use crate::service::{
    is_rest_of, law_calm_service_discards_nothing, law_fresh_flow_goes_first,
    law_service_keeps_order, queue_of, queues_calm,
};
use crate::state::{wrote, DatagramState, Written};
use crate::time::elapsed;

verus! {

/// Every datagram is accounted for: each flow is left with the rest of what it
/// had queued, what is gone was written or counted as dropped, and the datagram
/// written is the last one gone from its flow. The schedule stays in order, and
/// nothing else changes.
pub proof fn law_write_accounts_for_every_datagram(
    w: Written,
    max_size: int,
    now: int,
    aqm: Option<DatagramAqmConfig>,
)
    requires
        w.state.0.wf(),
        wrote(w, max_size, now, aqm),
    ensures
        ({
            let (before, after) = (w.state.0.schedule(), w.state.1.schedule());
            &&& after.wf()
            &&& forall|b: u32| is_rest_of(#[trigger] queue_of(after, b), queue_of(before, b))
            &&& before.queued() - after.queued() == (if w.written {
                1int
            } else {
                0
            }) + (w.stats.1.dropped_aqm - w.stats.0.dropped_aqm)
            &&& w.written ==> exists|b: u32|
                {
                    let gone = queue_of(before, b).len() - #[trigger] queue_of(after, b).len();
                    &&& gone > 0
                    &&& w.buf.1 == w.buf.0 + frame(
                        queue_of(before, b)[gone - 1].datagram.payload(),
                        true,
                    )
                }
            &&& !w.written ==> w.buf.1 == w.buf.0
            &&& aqm is None ==> w.stats.1 == w.stats.0
            &&& w.state.1.same_but_outgoing(&w.state.0)
        }),
{
    let (before, after) = (w.state.0.schedule(), w.state.1.schedule());
    let room = max_size - w.buf.0.len();
    assert forall|b: u32| is_rest_of(#[trigger] queue_of(after, b), queue_of(before, b)) by {
        law_service_keeps_order(before, room, now, aqm, b);
    }
    let service = served(before, room, now, aqm);
    let flow = match service.sent {
        Some((flow, _)) => flow,
        None => 0,
    };
    law_service_keeps_order(before, room, now, aqm, flow);
    assert(queue_of(after, flow).len() <= queue_of(before, flow).len());
}

/// Writing drops nothing from a nearly drained queue, nor from one that holds
/// only datagrams that have waited for less than the target.
pub proof fn law_calm_queue_is_written_without_drops(
    w: Written,
    max_size: int,
    now: int,
    config: DatagramAqmConfig,
)
    requires
        w.state.0.wf(),
        wrote(w, max_size, now, Some(config)),
        queues_calm(w.state.0.schedule(), now, config),
    ensures
        w.stats.1 == w.stats.0,
{
    law_calm_service_discards_nothing(
        w.state.0.schedule(),
        max_size - w.buf.0.len(),
        now,
        config,
    );
}

/// A datagram queued on a flow that was not active is the next one written, ahead
/// of every standing queue and without a drop, if no other new flow waits and it
/// is neither stale nor too large.
pub proof fn law_fresh_datagram_is_written_next(
    s: DatagramState,
    b: u32,
    d: QueuedDatagram,
    w: Written,
    max_size: int,
    now: int,
    aqm: Option<DatagramAqmConfig>,
)
    requires
        s.wf(),
        s.new_flows@.len() == 0,
        !s.flows@.contains_key(b),
        w.state.0.schedule() == s.schedule().enqueued(b, d),
        wrote(w, max_size, now, aqm),
        w.buf.0.len() + frame_size(d.len() as int, true) <= max_size,
        aqm matches Some(config) ==> elapsed(d.queued_at@, now) < config.target@,
    ensures
        w.written,
        w.buf.1 == w.buf.0 + frame(d.datagram.payload(), true),
        w.stats.1 == w.stats.0,
{
    law_fresh_flow_goes_first(s.schedule(), b, d, max_size - w.buf.0.len(), now, aqm);
}

} // verus!
