//! The datagram queues of one connection, in both directions.
use vstd::prelude::*;

use crate::config::DatagramAqmConfig;
use crate::flow::{
    lemma_payload_push, lemma_within_encodable, payload_bytes, within, FlowModel, FlowQueue,
    QueuedDatagram, FQ_QUANTUM,
};
use crate::flow_map::{buckets, flow_mut, flow_ref, insert_flow, remove_flow};
use crate::frame::{encodable, frame, law_frame_has_its_size, Datagram};
use crate::schedule::{
    law_flows_are_scheduled_once, lemma_enqueued, lemma_finite, lemma_total_insert,
    lemma_total_split, lemma_turn, served, total, turn_next, Measure, Schedule, Served,
};
use crate::stats::DatagramTxStats;
use crate::time::{Duration, Instant};
use bytes::Bytes;
use rustc_hash::FxHashMap;
use std::collections::VecDeque;
use vstd::arithmetic::power::pow;

verus! {

/// Which DRR list the scheduler is currently serving from
#[derive(Clone, Copy, PartialEq, Eq)]
enum FlowList {
    New,
    Old,
}

/// The datagrams that wait to be sent and to be received
#[derive(Debug)]
pub struct DatagramState {
    /// Number of bytes of datagrams that have been received by the local transport but not
    /// delivered to the application
    pub recv_buffered: usize,
    pub incoming: VecDeque<Datagram>,
    pub outgoing_total: usize,
    pub send_blocked: bool,
    /// Active flow queues by bucket. With classification off this holds at
    /// most the shared bucket, and then it is a single FIFO.
    pub flows: FxHashMap<u32, FlowQueue>,
    /// Flows that became active since last served: they get scheduling
    /// priority (RFC 8290), which is what shields a sparse flow from a
    /// standing bulk queue.
    pub new_flows: VecDeque<u32>,
    /// Flows being served round-robin
    pub old_flows: VecDeque<u32>,
    /// Smoothed BDP estimate driving adaptive send-buffer sizing
    pub bdp_ewma: Option<u64>,
}

/// What the entries of a flow table stand for
pub open spec fn flow_models(flows: Map<u32, FlowQueue>) -> Map<u32, FlowModel> {
    Map::new(|b: u32| flows.contains_key(b), |b: u32| flows[b]@)
}

/// Payload bytes in a queue of received datagrams
pub open spec fn received_bytes(queue: Seq<Datagram>) -> nat
    decreases queue.len(),
{
    if queue.len() == 0 {
        0
    } else {
        queue[0].payload().len() + received_bytes(queue.drop_first())
    }
}

/// A setting behind a reference, if there is one
pub open spec fn setting<T>(r: Option<&T>) -> Option<T> {
    match r {
        Some(v) => Some(*v),
        None => None,
    }
}

impl DatagramState {
    /// The outgoing queues
    pub open spec fn schedule(&self) -> Schedule {
        Schedule {
            flows: flow_models(self.flows@),
            new_flows: self.new_flows@,
            old_flows: self.old_flows@,
        }
    }

    /// Every byte count is that of the queue it belongs to, and every active
    /// flow is scheduled exactly once.
    pub open spec fn wf(&self) -> bool {
        &&& self.schedule().wf()
        &&& forall|b: u32| #[trigger] self.flows@.contains_key(b) ==> self.flows@[b].wf()
        &&& self.outgoing_total == self.schedule().backlog()
        &&& self.recv_buffered == received_bytes(self.incoming@)
    }

    /// Every queued datagram fits a frame that carries its length.
    pub open spec fn encodable(&self) -> bool {
        forall|b: u32, i: int|
            #![trigger self.flows@[b].queue@[i]]
            self.flows@.contains_key(b) && 0 <= i < self.flows@[b].queue@.len() ==> encodable(
                self.flows@[b].queue@[i].len() as int,
            )
    }

    /// Nothing but the outgoing queues differs.
    pub open spec fn same_but_outgoing(&self, other: &DatagramState) -> bool {
        &&& self.recv_buffered == other.recv_buffered
        &&& self.incoming == other.incoming
        &&& self.send_blocked == other.send_blocked
        &&& self.bdp_ewma == other.bdp_ewma
    }
}

/// A call of [`DatagramState::write`]: what it was given and what it left, and
/// what it returned
pub ghost struct Written {
    pub state: (DatagramState, DatagramState),
    pub buf: (Seq<u8>, Seq<u8>),
    pub stats: (DatagramTxStats, DatagramTxStats),
    pub written: bool,
}

/// What writing comes to: the outgoing queues are served once, with the room that
/// is left of `max_size` bytes. A datagram that is sent is appended as a frame,
/// and what the queue management discards is counted.
pub open spec fn wrote(
    w: Written,
    max_size: int,
    now: int,
    aqm: Option<DatagramAqmConfig>,
) -> bool {
    let (before, after) = w.state;
    let service = served(before.schedule(), max_size - w.buf.0.len(), now, aqm);
    &&& after.same_but_outgoing(&before)
    &&& after.schedule() == service.schedule
    &&& w.written == (service.sent is Some)
    &&& w.buf.1 == match service.sent {
        Some((_, d)) => w.buf.0 + frame(d.datagram.payload(), true),
        None => w.buf.0,
    }
    &&& w.stats.1.dropped_aqm == w.stats.0.dropped_aqm + service.discarded
    &&& w.stats.1 == (DatagramTxStats { dropped_aqm: w.stats.1.dropped_aqm, ..w.stats.0 })
}

proof fn lemma_models_insert(flows: Map<u32, FlowQueue>, b: u32, flow: FlowQueue)
    ensures
        flow_models(flows.insert(b, flow)) == flow_models(flows).insert(b, flow@),
{
    assert(flow_models(flows.insert(b, flow)) =~= flow_models(flows).insert(b, flow@));
}

proof fn lemma_models_remove(flows: Map<u32, FlowQueue>, b: u32)
    ensures
        flow_models(flows.remove(b)) == flow_models(flows).remove(b),
{
    assert(flow_models(flows.remove(b)) =~= flow_models(flows).remove(b));
}

impl DatagramState {
    /// Queue a datagram on its flow bucket, registering a fresh bucket with
    /// the DRR scheduler
    pub fn enqueue(&mut self, bucket: u32, datagram: QueuedDatagram)
        requires
            old(self).wf(),
            old(self).outgoing_total + datagram.len() <= usize::MAX,
        ensures
            final(self).wf(),
            final(self).schedule() == old(self).schedule().enqueued(bucket, datagram),
            final(self).outgoing_total == old(self).outgoing_total + datagram.len(),
            old(self).encodable() && encodable(datagram.len() as int) ==> final(self).encodable(),
            final(self).same_but_outgoing(old(self)),
    {
        let ghost before = self.schedule();
        let ghost table = self.flows@;
        let len: usize = datagram.datagram.data.len();
        proof {
            lemma_finite(before);
            if table.contains_key(bucket) {
                lemma_total_split(before.flows, Measure::Bytes, bucket);
                lemma_payload_push(table[bucket].queue@, datagram);
            } else {
                lemma_payload_push(Seq::empty(), datagram);
            }
        }
        self.outgoing_total = self.outgoing_total + len;
        match flow_mut(&mut self.flows, bucket) {
            Some(flow) => {
                flow.bytes = flow.bytes + len;
                flow.queue.push_back(datagram);
            },
            None => {
                let mut flow: FlowQueue = FlowQueue::new();
                flow.bytes = len;
                flow.queue.push_back(datagram);
                insert_flow(&mut self.flows, bucket, flow);
                self.new_flows.push_back(bucket);
            },
        }
        proof {
            let after = self.schedule();
            lemma_models_insert(table, bucket, self.flows@[bucket]);
            lemma_enqueued(before, bucket, datagram);
            assert(Seq::<QueuedDatagram>::empty().push(datagram) =~= seq![datagram]);
            assert(after =~= before.enqueued(bucket, datagram));
        }
    }
}

impl DatagramState {
    /// Attempt to write a datagram frame into `buf`, consuming it from the flow queues
    ///
    /// Returns whether a frame was written. At most `max_size` bytes will be written, including
    /// framing.
    ///
    /// Flows are served DRR round-robin with new-flow priority (RFC 8290);
    /// when `aqm` is configured, each flow runs its own CoDel: heads whose
    /// sojourn time keeps the queue above the latency target are dropped
    /// (and counted in `stats`) instead of transmitted. A drained flow is
    /// unregistered, so an idle connection carries no per-flow state.
    pub fn write(
        &mut self,
        buf: &mut Vec<u8>,
        max_size: usize,
        now: Instant,
        aqm: Option<&DatagramAqmConfig>,
        stats: &mut DatagramTxStats,
    ) -> (written: bool)
        requires
            old(self).wf(),
            old(self).encodable(),
            aqm is Some ==> {
                &&& now@ + aqm->0.interval@ <= u64::MAX
                &&& old(self).schedule().drop_counts_fit()
                &&& old(stats).dropped_aqm + old(self).schedule().queued() <= u64::MAX
            },
        ensures
            final(self).wf(),
            final(self).encodable(),
            written ==> final(buf)@.len() <= max_size,
            wrote(
                (Written {
                    state: (*old(self), *final(self)),
                    buf: (old(buf)@, final(buf)@),
                    stats: (*old(stats), *final(stats)),
                    written,
                }),
                max_size as int,
                now@,
                setting(aqm),
            ),
            ({
                let service = served(
                    old(self).schedule(),
                    max_size - old(buf)@.len(),
                    now.nanos as int,
                    match aqm {
                        Some(config) => Some(*config),
                        None => None,
                    },
                );
                &&& final(self).schedule() == service.schedule
                &&& written <==> service.sent is Some
                &&& service.sent matches Some((_, d)) ==> final(buf)@ == old(buf)@ + frame(
                    d.datagram.payload(),
                    true,
                )
                &&& !written ==> final(buf)@ == old(buf)@
                &&& final(stats).dropped_aqm == old(stats).dropped_aqm + service.discarded
                &&& final(stats).dropped_overflow == old(stats).dropped_overflow
                &&& final(stats).ecn_not_ect == old(stats).ecn_not_ect
                &&& final(stats).ecn_ect0 == old(stats).ecn_ect0
                &&& final(stats).ecn_ect1 == old(stats).ecn_ect1
                &&& final(stats).ecn_ce == old(stats).ecn_ce
            }),
            final(self).incoming == old(self).incoming,
            final(self).recv_buffered == old(self).recv_buffered,
            final(self).send_blocked == old(self).send_blocked,
            final(self).bdp_ewma == old(self).bdp_ewma,
    {
        let ghost config = setting(aqm);
        let ghost room = max_size - buf@.len();
        let ghost goal = served(self.schedule(), room, now@, config);
        let ghost mut discarded: nat = 0;
        loop
            invariant
                self.wf(),
                self.encodable(),
                self.same_but_outgoing(old(self)),
                config == setting(aqm),
                buf@ == old(buf)@,
                room == max_size - buf@.len(),
                aqm is Some ==> {
                    &&& now@ + aqm->0.interval@ <= u64::MAX
                    &&& self.schedule().drop_counts_fit()
                    &&& stats.dropped_aqm + self.schedule().queued() <= u64::MAX
                },
                goal == (Served {
                    discarded: discarded + served(
                        self.schedule(),
                        room,
                        now@,
                        config,
                    ).discarded,
                    ..served(self.schedule(), room, now@, config)
                }),
                goal == served(old(self).schedule(), room, now@, config),
                stats.dropped_aqm == old(stats).dropped_aqm + discarded,
                *stats == (DatagramTxStats { dropped_aqm: stats.dropped_aqm, ..*old(stats) }),
            decreases
                total(self.schedule().flows, Measure::Datagrams),
                self.schedule().flows.dom().len(),
                self.schedule().new_flows.len(),
                total(self.schedule().flows, Measure::Debt),
        {
            let ghost s = self.schedule();
            let ghost table = self.flows@;
            let ghost t = turn_next(s.turn(room, now@, config), s);
            proof {
                lemma_turn(s, room, now@, config);
                lemma_finite(s);
            }
            let (list, bucket): (FlowList, u32) = if self.new_flows.len() > 0 {
                (FlowList::New, self.new_flows[0])
            } else if self.old_flows.len() > 0 {
                (FlowList::Old, self.old_flows[0])
            } else {
                return false;
            };
            proof {
                assert(s.order()[0] == bucket);
                assert(s.order().contains(bucket));
                assert(s.flows.contains_key(bucket));
                lemma_total_split(s.flows, Measure::Bytes, bucket);
                lemma_total_split(s.flows, Measure::Datagrams, bucket);
            }
            match flow_mut(&mut self.flows, bucket) {
                None => {
                    assert(false);
                    return false;
                },
                Some(flow) => {
                    if flow.deficit <= 0 {
                        // Out of credit: refill and move to the back of the old
                        // list; some other flow gets this turn.
                        flow.deficit = flow.deficit + FQ_QUANTUM;
                        match list {
                            FlowList::New => {
                                self.new_flows.pop_front();
                            },
                            FlowList::Old => {
                                self.old_flows.pop_front();
                            },
                        }
                        self.old_flows.push_back(bucket);
                        proof {
                            lemma_models_insert(table, bucket, self.flows@[bucket]);
                            lemma_total_insert(
                                s.flows,
                                Measure::Bytes,
                                bucket,
                                self.flows@[bucket]@,
                            );
                            lemma_total_insert(
                                s.flows,
                                Measure::Datagrams,
                                bucket,
                                self.flows@[bucket]@,
                            );
                            assert(self.schedule() =~= t);
                        }
                        continue ;
                    }
                    match flow.queue.pop_front() {
                        None => {
                            // Drained flow: a new-list flow gets one final round on
                            // the old list (RFC 8290: prevents cycling through the
                            // priority list), an old-list flow is unregistered.
                            match list {
                                FlowList::New => {
                                    self.new_flows.pop_front();
                                    self.old_flows.push_back(bucket);
                                    proof {
                                        lemma_models_insert(table, bucket, self.flows@[bucket]);
                                        assert(self.schedule().flows =~= s.flows);
                                    }
                                },
                                FlowList::Old => {
                                    self.old_flows.pop_front();
                                    remove_flow(&mut self.flows, bucket);
                                    proof {
                                        assert(self.flows@ =~= table.remove(bucket));
                                        lemma_models_remove(table, bucket);
                                    }
                                },
                            }
                            assert(self.schedule() =~= t);
                            continue ;
                        },
                        Some(queued) => {
                            let len: usize = queued.datagram.data.len();
                            if let Some(config) = aqm {
                                let sojourn: Duration = now.saturating_duration_since(
                                    queued.queued_at,
                                );
                                if flow.codel.should_drop(
                                    sojourn,
                                    self.outgoing_total,
                                    now,
                                    config,
                                ) {
                                    self.outgoing_total = self.outgoing_total - len;
                                    flow.bytes = flow.bytes - len;
                                    stats.dropped_aqm = stats.dropped_aqm + 1;
                                    proof {
                                        discarded = discarded + 1;
                                        lemma_models_insert(table, bucket, self.flows@[bucket]);
                                        lemma_total_insert(
                                            s.flows,
                                            Measure::Bytes,
                                            bucket,
                                            self.flows@[bucket]@,
                                        );
                                        lemma_total_insert(
                                            s.flows,
                                            Measure::Datagrams,
                                            bucket,
                                            self.flows@[bucket]@,
                                        );
                                        assert(self.schedule() =~= t);
                                    }
                                    continue ;
                                }
                            }
                            let size: usize = queued.frame_size(true);
                            if size > max_size || buf.len() > max_size - size {
                                // A smaller datagram behind this one is not tried.
                                flow.queue.push_front(queued);
                                proof {
                                    lemma_models_insert(table, bucket, self.flows@[bucket]);
                                    assert(self.flows@[bucket].queue@ =~= table[bucket].queue@);
                                    lemma_total_insert(
                                        s.flows,
                                        Measure::Bytes,
                                        bucket,
                                        self.flows@[bucket]@,
                                    );
                                    assert(self.schedule() =~= t);
                                }
                                return false;
                            }
                            self.outgoing_total = self.outgoing_total - len;
                            flow.bytes = flow.bytes - len;
                            flow.deficit = flow.deficit - size as i64;
                            queued.datagram.encode(true, buf);
                            proof {
                                law_frame_has_its_size(queued.datagram.payload(), true);
                                lemma_models_insert(table, bucket, self.flows@[bucket]);
                                lemma_total_insert(
                                    s.flows,
                                    Measure::Bytes,
                                    bucket,
                                    self.flows@[bucket]@,
                                );
                                assert(self.schedule() =~= t);
                            }
                            return true;
                        },
                    }
                },
            }
        }
    }
}

/// Error code of a violation of the protocol (RFC 9000 section 20.1)
pub const PROTOCOL_VIOLATION: u64 = 0xa;

/// A reason to close the connection
#[derive(Debug, Clone, Copy, PartialEq, Eq)]
pub struct TransportError {
    pub code: u64,
    pub reason: &'static str,
}

/// The queue without the oldest datagrams, as few as leave at most `space` bytes
pub open spec fn trimmed(queue: Seq<Datagram>, space: int) -> Seq<Datagram>
    decreases queue.len(),
{
    if queue.len() == 0 || received_bytes(queue) <= space {
        queue
    } else {
        trimmed(queue.drop_first(), space)
    }
}

proof fn lemma_received_push(queue: Seq<Datagram>, d: Datagram)
    ensures
        received_bytes(queue.push(d)) == received_bytes(queue) + d.payload().len(),
    decreases queue.len(),
{
    if queue.len() == 0 {
        assert(queue.push(d).drop_first() =~= queue);
    } else {
        assert(queue.push(d).drop_first() =~= queue.drop_first().push(d));
        lemma_received_push(queue.drop_first(), d);
    }
}

/// The smoothed estimate after a fresh sample: it moves an eighth of the way
pub open spec fn ewma_next(prev: Option<int>, sample: int) -> int {
    match prev {
        None => sample,
        Some(p) => if sample >= p {
            p + (sample - p) / 8
        } else {
            p - (p - sample) / 8
        },
    }
}

/// An estimate, if there is one, as a number
pub open spec fn estimate(bdp: Option<u64>) -> Option<int> {
    match bdp {
        Some(v) => Some(v as int),
        None => None,
    }
}

/// The estimate that a fresh BDP sample makes of the one before it
pub(crate) fn smoothed(bdp: Option<u64>, sample: u64) -> (next: u64)
    ensures
        next == ewma_next(estimate(bdp), sample as int),
{
    match bdp {
        None => sample,
        Some(prev) => if sample >= prev {
            prev + (sample - prev) / 8
        } else {
            prev - (prev - sample) / 8
        },
    }
}

impl DatagramState {
    /// Nothing but the receive buffer differs.
    pub open spec fn same_but_incoming(&self, other: &DatagramState) -> bool {
        &&& self.outgoing_total == other.outgoing_total
        &&& self.send_blocked == other.send_blocked
        &&& self.flows == other.flows
        &&& self.new_flows == other.new_flows
        &&& self.old_flows == other.old_flows
        &&& self.bdp_ewma == other.bdp_ewma
    }

    /// Fold a fresh BDP sample into the smoothed estimate (EWMA, alpha 1/8)
    /// and return it
    ///
    /// The controller's bandwidth/rtt filters are already windowed, so this
    /// only damps filter-rotation steps; per-enqueue updates converge within
    /// a few packets of any sustained change.
    pub fn update_bdp_ewma(&mut self, sample: u64) -> (next: u64)
        ensures
            next == ewma_next(estimate(old(self).bdp_ewma), sample as int),
            old(self).bdp_ewma is None ==> next == sample,
            old(self).bdp_ewma matches Some(prev) ==> {
                &&& prev <= sample ==> next - prev == (sample - prev) / 8
                &&& sample <= prev ==> prev - next == (prev - sample) / 8
            },
            *final(self) == (DatagramState { bdp_ewma: Some(next), ..*old(self) }),
    {
        let next: u64 = smoothed(self.bdp_ewma, sample);
        self.bdp_ewma = Some(next);
        next
    }

    /// Drop the head of the flow with the largest backlog (RFC 8290's
    /// overlimit behavior), returning its payload length
    ///
    /// With a single active flow this is exactly oldest-first eviction; with
    /// several it protects sparse flows from a flooder that overruns the
    /// shared buffer.
    pub fn evict_from_fattest_flow(&mut self) -> (evicted: Option<usize>)
        requires
            old(self).wf(),
        ensures
            final(self).wf(),
            final(self).same_but_outgoing(old(self)),
            old(self).encodable() ==> final(self).encodable(),
            match evicted {
                Some(len) => exists|b: u32|
                    {
                        &&& #[trigger] old(self).schedule().is_fattest(b)
                        &&& len == old(self).schedule().flows[b].queue[0].len()
                        &&& final(self).schedule() == old(self).schedule().evicted(b)
                        &&& final(self).outgoing_total == old(self).outgoing_total - len
                    },
                None => {
                    &&& old(self).schedule().empty()
                    &&& *final(self) == *old(self)
                },
            },
    {
        let ghost s = self.schedule();
        let ghost table = self.flows@;
        let keys: Vec<u32> = buckets(&self.flows);
        let mut fattest: Option<(u32, usize)> = None;
        let mut i: usize = 0;
        while i < keys.len()
            invariant
                i <= keys@.len(),
                table == self.flows@,
                s == self.schedule(),
                self.wf(),
                forall|b: u32| keys@.contains(b) <==> #[trigger] table.contains_key(b),
                match fattest {
                    Some((b, bytes)) => {
                        &&& table.contains_key(b)
                        &&& table[b].queue@.len() > 0
                        &&& table[b].bytes == bytes
                        &&& forall|j: int|
                            0 <= j < i && table[#[trigger] keys@[j]].queue@.len() > 0
                                ==> table[keys@[j]].bytes <= bytes
                    },
                    None => forall|j: int|
                        0 <= j < i ==> table[#[trigger] keys@[j]].queue@.len() == 0,
                },
            decreases keys@.len() - i,
        {
            let bucket: u32 = keys[i];
            assert(keys@.contains(bucket));
            match flow_ref(&self.flows, bucket) {
                Some(flow) => {
                    if flow.queue.len() > 0 {
                        let larger: bool = match fattest {
                            Some((_, bytes)) => flow.bytes > bytes,
                            None => true,
                        };
                        if larger {
                            fattest = Some((bucket, flow.bytes));
                        }
                    }
                },
                None => {
                    assert(false);
                },
            }
            i = i + 1;
        }
        match fattest {
            None => {
                assert forall|b: u32| #[trigger]
                    s.flows.contains_key(b) implies s.flows[b].queue.len() == 0 by {
                    assert(keys@.contains(b));
                }
                None
            },
            Some((bucket, _)) => {
                proof {
                    assert forall|b: u32|
                        #[trigger] s.flows.contains_key(b) && s.flows[b].queue.len()
                            > 0 implies payload_bytes(s.flows[b].queue) <= payload_bytes(
                        s.flows[bucket].queue,
                    ) by {
                        assert(keys@.contains(b));
                    }
                    assert(s.is_fattest(bucket));
                    lemma_finite(s);
                    lemma_total_split(s.flows, Measure::Bytes, bucket);
                }
                match flow_mut(&mut self.flows, bucket) {
                    Some(flow) => {
                        match flow.queue.pop_front() {
                            Some(prev) => {
                                let len: usize = prev.datagram.data.len();
                                flow.bytes = flow.bytes - len;
                                self.outgoing_total = self.outgoing_total - len;
                                proof {
                                    lemma_models_insert(table, bucket, self.flows@[bucket]);
                                    lemma_total_insert(
                                        s.flows,
                                        Measure::Bytes,
                                        bucket,
                                        self.flows@[bucket]@,
                                    );
                                    assert(self.schedule() =~= s.evicted(bucket));
                                    assert(self.schedule().flows.dom() =~= s.flows.dom());
                                }
                                Some(len)
                            },
                            None => {
                                assert(false);
                                None
                            },
                        }
                    },
                    None => {
                        assert(false);
                        None
                    },
                }
            },
        }
    }

    /// Whether no outgoing datagram is queued on any flow
    pub fn is_empty(&self) -> (empty: bool)
        ensures
            empty == self.schedule().empty(),
            empty <==> forall|b: u32| #[trigger]
                self.flows@.contains_key(b) ==> self.flows@[b].queue@.len() == 0,
    {
        let keys: Vec<u32> = buckets(&self.flows);
        let mut i: usize = 0;
        while i < keys.len()
            invariant
                i <= keys@.len(),
                forall|b: u32| keys@.contains(b) <==> #[trigger] self.flows@.contains_key(b),
                forall|j: int|
                    0 <= j < i ==> self.flows@[#[trigger] keys@[j]].queue@.len() == 0,
            decreases keys@.len() - i,
        {
            let bucket: u32 = keys[i];
            assert(keys@.contains(bucket));
            match flow_ref(&self.flows, bucket) {
                Some(flow) => {
                    if flow.queue.len() > 0 {
                        assert(self.schedule().flows.contains_key(bucket));
                        return false;
                    }
                },
                None => {
                    assert(false);
                },
            }
            i = i + 1;
        }
        assert forall|b: u32| #[trigger]
            self.schedule().flows.contains_key(b) implies self.schedule().flows[b].queue.len()
            == 0 by {
            assert(keys@.contains(b));
        }
        true
    }

    /// Whether the head of some flow would fit in `max_size` bytes
    ///
    /// Only the head of a flow can be written next, so only heads count.
    pub fn can_write(&self, max_size: usize) -> (can: bool)
        requires
            self.encodable(),
        ensures
            can == exists|b: u32| #[trigger] self.schedule().head_fits(b, max_size as int),
            can <==> exists|b: u32|
                {
                    &&& #[trigger] self.flows@.contains_key(b)
                    &&& self.flows@[b].queue@.len() > 0
                    &&& frame(self.flows@[b].queue@[0].datagram.payload(), true).len() <= max_size
                },
    {
        let keys: Vec<u32> = buckets(&self.flows);
        let mut i: usize = 0;
        while i < keys.len()
            invariant
                i <= keys@.len(),
                self.encodable(),
                forall|b: u32| keys@.contains(b) <==> #[trigger] self.flows@.contains_key(b),
                forall|j: int|
                    0 <= j < i ==> !self.schedule().head_fits(
                        #[trigger] keys@[j],
                        max_size as int,
                    ),
            decreases keys@.len() - i,
        {
            let bucket: u32 = keys[i];
            assert(keys@.contains(bucket));
            match flow_ref(&self.flows, bucket) {
                Some(flow) => {
                    if flow.queue.len() > 0 {
                        assert(encodable(self.flows@[bucket].queue@[0].len() as int));
                        if flow.queue[0].frame_size(true) <= max_size {
                            assert(self.schedule().head_fits(bucket, max_size as int));
                            proof {
                                let head = self.flows@[bucket].queue@[0];
                                law_frame_has_its_size(head.datagram.payload(), true);
                                assert(self.flows@.contains_key(bucket));
                            }
                            return true;
                        }
                    }
                },
                None => {
                    assert(false);
                },
            }
            i = i + 1;
        }
        assert forall|b: u32| !#[trigger] self.schedule().head_fits(b, max_size as int) by {
            if self.schedule().flows.contains_key(b) {
                assert(keys@.contains(b));
            }
        }
        proof {
            assert forall|b: u32|
                #[trigger] self.flows@.contains_key(b) && self.flows@[b].queue@.len()
                    > 0 implies frame(self.flows@[b].queue@[0].datagram.payload(), true).len()
                > max_size by {
                assert(!self.schedule().head_fits(b, max_size as int));
                law_frame_has_its_size(self.flows@[b].queue@[0].datagram.payload(), true);
            }
        }
        false
    }

    /// Take in a datagram from the peer, for which `window` bytes of buffer are meant
    ///
    /// The oldest datagrams make room for it. Returns whether the buffer held no
    /// bytes before.
    pub fn received(&mut self, datagram: Datagram, window: &Option<usize>) -> (result: Result<
        bool,
        TransportError,
    >)
        requires
            old(self).wf(),
        ensures
            final(self).wf(),
            final(self).same_but_incoming(old(self)),
            match *window {
                None => {
                    &&& result == Err::<bool, TransportError>(
                        TransportError {
                            code: PROTOCOL_VIOLATION,
                            reason: "unexpected DATAGRAM frame",
                        },
                    )
                    &&& *final(self) == *old(self)
                },
                Some(w) => if datagram.payload().len() > w {
                    &&& result == Err::<bool, TransportError>(
                        TransportError { code: PROTOCOL_VIOLATION, reason: "oversized datagram" },
                    )
                    &&& *final(self) == *old(self)
                } else {
                    &&& result == Ok::<bool, TransportError>(old(self).recv_buffered == 0)
                    &&& final(self).incoming@ == trimmed(
                        old(self).incoming@,
                        w - datagram.payload().len(),
                    ).push(datagram)
                    &&& final(self).recv_buffered <= w
                },
            },
            result is Err <==> *window is None || datagram.payload().len() > window->0,
            result matches Err(error) ==> error.code == 0xa,
            result is Ok ==> {
                &&& final(self).incoming@.len() > 0
                &&& final(self).incoming@.last() == datagram
                &&& received_bytes(final(self).incoming@) <= window->0
            },
    {
        let window: usize = match window {
            None => {
                return Err(
                    TransportError {
                        code: PROTOCOL_VIOLATION,
                        reason: "unexpected DATAGRAM frame",
                    },
                );
            },
            Some(x) => *x,
        };
        let len: usize = datagram.data.len();
        if len > window {
            return Err(TransportError { code: PROTOCOL_VIOLATION, reason: "oversized datagram" });
        }
        let space: usize = window - len;
        let was_empty: bool = self.recv_buffered == 0;
        while self.recv_buffered > space
            invariant
                self.wf(),
                self.same_but_incoming(old(self)),
                trimmed(self.incoming@, space as int) == trimmed(old(self).incoming@, space as int),
            decreases self.incoming@.len(),
        {
            self.recv();
        }
        proof {
            lemma_received_push(self.incoming@, datagram);
        }
        self.recv_buffered = self.recv_buffered + len;
        self.incoming.push_back(datagram);
        Ok(was_empty)
    }

    /// Hand out the oldest datagram received
    pub fn recv(&mut self) -> (data: Option<Bytes>)
        requires
            old(self).wf(),
        ensures
            final(self).wf(),
            final(self).same_but_incoming(old(self)),
            match data {
                Some(x) => {
                    &&& old(self).incoming@.len() > 0
                    &&& x == old(self).incoming@[0].data
                    &&& final(self).incoming@ == old(self).incoming@.drop_first()
                },
                None => {
                    &&& old(self).incoming@.len() == 0
                    &&& final(self).incoming@ == old(self).incoming@
                },
            },
    {
        match self.incoming.pop_front() {
            Some(datagram) => {
                self.recv_buffered = self.recv_buffered - datagram.data.len();
                Some(datagram.data)
            },
            None => None,
        }
    }

    /// Discard outgoing datagrams with a payload larger than `max_payload` bytes
    ///
    /// Used to ensure that reductions in MTU don't get us stuck in a state where we have a datagram
    /// queued but can't send it.
    pub fn drop_oversized(&mut self, max_payload: usize)
        requires
            old(self).wf(),
        ensures
            final(self).wf(),
            final(self).schedule() == old(self).schedule().pruned(max_payload as int),
            final(self).same_but_outgoing(old(self)),
            old(self).encodable() ==> final(self).encodable(),
    {
        let ghost s = self.schedule();
        let keys: Vec<u32> = buckets(&self.flows);
        let mut i: usize = 0;
        while i < keys.len()
            invariant
                i <= keys@.len(),
                s == old(self).schedule(),
                self.wf(),
                keys@.no_duplicates(),
                forall|b: u32| keys@.contains(b) <==> #[trigger] self.flows@.contains_key(b),
                self.same_but_outgoing(old(self)),
                self.schedule().new_flows == s.new_flows,
                self.schedule().old_flows == s.old_flows,
                self.schedule().flows.dom() == s.flows.dom(),
                forall|j: int|
                    0 <= j < i ==> self.schedule().flows[#[trigger] keys@[j]] == within(
                        s.flows[keys@[j]],
                        max_payload as int,
                    ),
                forall|j: int|
                    i <= j < keys@.len() ==> self.schedule().flows[#[trigger] keys@[j]]
                        == s.flows[keys@[j]],
                old(self).encodable() ==> self.encodable(),
            decreases keys@.len() - i,
        {
            let bucket: u32 = keys[i];
            let ghost table = self.flows@;
            let ghost now = self.schedule();
            proof {
                assert(keys@.contains(bucket));
                lemma_finite(now);
                lemma_total_split(now.flows, Measure::Bytes, bucket);
            }
            match flow_mut(&mut self.flows, bucket) {
                Some(flow) => {
                    let dropped: usize = flow.drop_oversized(max_payload);
                    self.outgoing_total = self.outgoing_total - dropped;
                },
                None => {
                    assert(false);
                },
            }
            proof {
                lemma_models_insert(table, bucket, self.flows@[bucket]);
                lemma_total_insert(now.flows, Measure::Bytes, bucket, self.flows@[bucket]@);
                assert(self.schedule().flows.dom() =~= now.flows.dom());
                assert(self.schedule().order() == now.order());
                assert forall|j: int| 0 <= j < keys@.len() && j != i implies #[trigger] keys@[j]
                    != bucket by {}
                if old(self).encodable() {
                    lemma_within_encodable(now.flows[bucket], max_payload as int);
                    assert(forall|j: int|
                        0 <= j < table[bucket].queue@.len() ==> encodable(
                            #[trigger] table[bucket].queue@[j].len() as int,
                        ));
                }
            }
            i = i + 1;
        }
        proof {
            assert forall|b: u32| #[trigger]
                s.flows.contains_key(b) implies self.schedule().flows[b] == within(
                s.flows[b],
                max_payload as int,
            ) by {
                assert(self.schedule().flows.contains_key(b));
                assert(keys@.contains(b));
            }
            assert(self.schedule().flows =~= s.pruned(max_payload as int).flows);
        }
    }
}

impl Default for DatagramState {
    /// Nothing queued in either direction
    fn default() -> (state: Self)
        ensures
            state.wf(),
            state.encodable(),
            state.incoming@ == Seq::<Datagram>::empty(),
            state.outgoing_total == 0,
            !state.send_blocked,
            state.schedule() == (Schedule {
                flows: Map::empty(),
                new_flows: Seq::empty(),
                old_flows: Seq::empty(),
            }),
            state.bdp_ewma is None,
    {
        let state = DatagramState {
            recv_buffered: 0,
            incoming: VecDeque::new(),
            outgoing_total: 0,
            send_blocked: false,
            flows: FxHashMap::default(),
            new_flows: VecDeque::new(),
            old_flows: VecDeque::new(),
            bdp_ewma: None,
        };
        assert(state.schedule().flows =~= Map::<u32, FlowModel>::empty());
        state
    }
}

/// How far an estimate lies from a sample
pub open spec fn distance(a: int, b: int) -> int {
    if a >= b {
        a - b
    } else {
        b - a
    }
}

/// The first sample is taken as it is; after that one sample moves the estimate
/// an eighth of the way towards it, rounded down, and never past it.
pub proof fn law_one_sample_moves_the_estimate_an_eighth(prev: int, sample: int)
    ensures
        ewma_next(None, sample) == sample,
        distance(ewma_next(Some(prev), sample), prev) == distance(prev, sample) / 8,
        distance(ewma_next(Some(prev), sample), sample) == distance(prev, sample) - distance(
            prev,
            sample,
        ) / 8,
        prev <= sample ==> prev <= ewma_next(Some(prev), sample) <= sample,
        sample <= prev ==> sample <= ewma_next(Some(prev), sample) <= prev,
{
}

/// The estimate after `n` equal samples
pub open spec fn ewma_after(prev: int, sample: int, n: nat) -> int
    decreases n,
{
    if n == 0 {
        prev
    } else {
        ewma_next(Some(ewma_after(prev, sample, (n - 1) as nat)), sample)
    }
}

/// A sustained sample pulls the estimate in by an eighth of the distance each
/// time, down to the seven units that rounding leaves: after `n` samples the
/// distance beyond those is at most `(7/8)^n` of what it was.
pub proof fn law_estimate_converges(prev: int, sample: int, n: nat)
    ensures
        pow(8, n) * (distance(ewma_after(prev, sample, n), sample) - 7) <= pow(7, n) * (distance(
            prev,
            sample,
        ) - 7),
        distance(ewma_after(prev, sample, n), sample) <= distance(prev, sample),
    decreases n,
{
    reveal(pow);
    if n > 0 {
        let m = (n - 1) as nat;
        law_estimate_converges(prev, sample, m);
        law_one_sample_moves_the_estimate_an_eighth(ewma_after(prev, sample, m), sample);
        let start = distance(prev, sample) - 7;
        let before = distance(ewma_after(prev, sample, m), sample) - 7;
        let after = distance(ewma_after(prev, sample, n), sample) - 7;
        let (p8, p7) = (pow(8, m), pow(7, m));
        vstd::arithmetic::power::lemma_pow_positive(8, m);
        assert(8 * after <= 7 * before);
        assert((8 * p8) * after <= (7 * p7) * start) by (nonlinear_arith)
            requires
                8 * after <= 7 * before,
                p8 * before <= p7 * start,
                p8 > 0,
        ;
    }
}

/// Making room drops the oldest received datagrams and no more of them than needed.
pub proof fn law_trimming_drops_as_few_as_needed(queue: Seq<Datagram>, space: int)
    requires
        space >= 0,
    ensures
        ({
            let kept = trimmed(queue, space);
            let dropped = queue.len() - kept.len();
            &&& 0 <= dropped
            &&& kept == queue.skip(dropped)
            &&& received_bytes(kept) <= space
            &&& dropped > 0 ==> received_bytes(queue.skip(dropped - 1)) > space
        }),
    decreases queue.len(),
{
    if queue.len() == 0 || received_bytes(queue) <= space {
        assert(queue.skip(0) =~= queue);
    } else {
        law_trimming_drops_as_few_as_needed(queue.drop_first(), space);
        let kept = trimmed(queue, space);
        let dropped = queue.len() - kept.len();
        assert(queue.skip(dropped) =~= queue.drop_first().skip(dropped - 1));
        if dropped > 1 {
            assert(queue.skip(dropped - 1) =~= queue.drop_first().skip(dropped - 2));
        } else {
            assert(queue.skip(0) =~= queue);
        }
    }
}

/// The bytes in a receive queue are those of its datagrams, taken together.
pub proof fn law_received_bytes_add_up(a: Seq<Datagram>, b: Seq<Datagram>, d: Datagram)
    ensures
        received_bytes(Seq::<Datagram>::empty()) == 0,
        received_bytes(seq![d]) == d.payload().len(),
        received_bytes(a + b) == received_bytes(a) + received_bytes(b),
    decreases a.len(),
{
    reveal_with_fuel(received_bytes, 2);
    assert(seq![d].drop_first() =~= Seq::<Datagram>::empty());
    if a.len() == 0 {
        assert(a + b =~= b);
    } else {
        assert((a + b).drop_first() =~= a.drop_first() + b);
        law_received_bytes_add_up(a.drop_first(), b, d);
    }
}

/// The model of the outgoing queues is the queues: the same flows, each with its
/// queue, credit and controller, and the same two lists.
pub proof fn law_model_is_faithful(state: DatagramState, b: u32)
    ensures
        state.schedule().flows.contains_key(b) <==> state.flows@.contains_key(b),
        state.flows@.contains_key(b) ==> {
            let (model, flow) = (state.schedule().flows[b], state.flows@[b]);
            &&& model.queue == flow.queue@
            &&& model.deficit == flow.deficit
            &&& model.codel == flow.codel@
        },
        state.schedule().new_flows == state.new_flows@,
        state.schedule().old_flows == state.old_flows@,
{
}

/// The counts are exact: all queued bytes, each flow's, and all received bytes.
/// Every active flow stands on one of the lists, and every listed flow is active.
pub proof fn law_counts_are_exact(state: DatagramState, b: u32)
    requires
        state.wf(),
    ensures
        state.outgoing_total == state.schedule().backlog(),
        state.flows@.contains_key(b) ==> state.flows@[b].bytes == payload_bytes(
            state.flows@[b].queue@,
        ),
        state.recv_buffered == received_bytes(state.incoming@),
        state.flows@.contains_key(b) <==> state.new_flows@.contains(b)
            || state.old_flows@.contains(b),
{
    law_flows_are_scheduled_once(state.schedule(), b);
}

/// An estimate is the number that is stored, and none where none is.
pub proof fn law_estimate_is_what_is_stored(bdp: Option<u64>)
    ensures
        bdp is None ==> estimate(bdp) is None,
        bdp matches Some(v) ==> estimate(bdp) == Some(v as int),
{
}

} // verus!
