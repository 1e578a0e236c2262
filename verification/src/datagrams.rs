//! The application's side: sending and receiving datagrams on a connection.
use vstd::prelude::*;

use crate::class::{
    bucket_for, bucket_of, unclassified, DatagramClass, DatagramEcn, SHARED_BUCKET,
};
use crate::config::{
    adaptive_limit, adaptive_send_buffer_limit, law_limit_is_the_multiple_within_bounds,
    DatagramBdpBufferConfig, TransportConfig,
};
use crate::flow::QueuedDatagram;
use crate::frame::{Datagram, DATAGRAM_SIZE_BOUND};
use crate::overflow::law_evictions_reach_the_limit;
use crate::payload::bytes_contents;
use crate::schedule::{evictions, lemma_empty, lemma_enqueued, lemma_evicted, Schedule};
use crate::service::{is_rest_of, law_enqueue_adds_one, queue_of};
use crate::state::{estimate, ewma_next, smoothed, DatagramState};
use crate::stats::{law_codepoints_are_counted_apart, DatagramTxStats};
use crate::time::Instant;
use bytes::Bytes;

verus! {

/// What is known of the path to the peer
#[derive(Debug, Clone, Copy)]
pub struct PathData {
    /// Largest UDP payload that the path currently carries
    pub current_mtu: u16,
    /// The congestion controller's estimate of the path's bandwidth-delay product, if it has one
    pub bdp_estimate: Option<u64>,
}

/// What the peer has announced
#[derive(Debug, Clone, Copy)]
pub struct TransportParameters {
    /// Largest DATAGRAM frame that the peer accepts, or `None` where it accepts none
    pub max_datagram_frame_size: Option<u64>,
}

/// A connection's counters
#[derive(Debug, Clone, Copy)]
pub struct ConnectionStats {
    pub datagram_tx: DatagramTxStats,
}

/// The parts of a connection that datagrams concern
#[derive(Debug)]
pub struct Connection {
    pub config: TransportConfig,
    pub path: PathData,
    pub peer_params: TransportParameters,
    /// Most bytes that a 1-RTT packet takes besides its frames, whatever its packet number
    pub packet_overhead: usize,
    pub datagrams: DatagramState,
    pub stats: ConnectionStats,
}

/// Errors that can arise when sending a datagram
#[derive(Debug, PartialEq, Eq, PartialOrd, Ord, Hash)]
pub enum SendDatagramError {
    /// The peer does not support receiving datagram frames
    UnsupportedByPeer,
    /// Datagram support is disabled locally
    Disabled,
    /// The datagram is larger than the connection can currently accommodate
    ///
    /// Indicates that the path MTU minus overhead or the limit advertised by the peer has been
    /// exceeded.
    TooLarge,
    /// Send would block
    Blocked(Bytes),
}

impl SendDatagramError {
    /// The same error, about the same bytes
    pub open spec fn same(&self, other: &SendDatagramError) -> bool {
        match (*self, *other) {
            (SendDatagramError::Blocked(a), SendDatagramError::Blocked(b)) => bytes_contents(a)
                == bytes_contents(b),
            (SendDatagramError::Blocked(_), _) => false,
            (_, SendDatagramError::Blocked(_)) => false,
            (a, b) => a == b,
        }
    }

    /// What went wrong, for people
    pub fn message(&self) -> (text: &'static str)
        ensures
            text@ == match *self {
                SendDatagramError::UnsupportedByPeer => "datagrams not supported by peer"@,
                SendDatagramError::Disabled => "datagram support disabled"@,
                SendDatagramError::TooLarge => "datagram too large"@,
                SendDatagramError::Blocked(_) => "datagram send blocked"@,
            },
    {
        match self {
            SendDatagramError::UnsupportedByPeer => "datagrams not supported by peer",
            SendDatagramError::Disabled => "datagram support disabled",
            SendDatagramError::TooLarge => "datagram too large",
            SendDatagramError::Blocked(_) => "datagram send blocked",
        }
    }
}

impl Clone for SendDatagramError {
    fn clone(&self) -> (copy: Self)
        ensures
            copy.same(self),
            *self !is Blocked ==> copy == *self,
            *self matches SendDatagramError::Blocked(data) ==> {
                &&& copy matches SendDatagramError::Blocked(again)
                &&& bytes_contents(again) == bytes_contents(data)
            },
    {
        match self {
            SendDatagramError::UnsupportedByPeer => SendDatagramError::UnsupportedByPeer,
            SendDatagramError::Disabled => SendDatagramError::Disabled,
            SendDatagramError::TooLarge => SendDatagramError::TooLarge,
            SendDatagramError::Blocked(data) => SendDatagramError::Blocked(data.clone()),
        }
    }
}

impl Connection {
    /// The settings make sense, a packet has room for a DATAGRAM frame's header,
    /// and the queues are in order.
    pub open spec fn wf(&self) -> bool {
        &&& self.config.wf()
        &&& self.header_fits()
        &&& self.datagrams.wf()
        &&& self.datagrams.encodable()
    }

    /// A packet has room for a DATAGRAM frame's header.
    pub open spec fn header_fits(&self) -> bool {
        self.packet_overhead + DATAGRAM_SIZE_BOUND <= self.path.current_mtu
    }

    /// Neither the settings nor what is known of the path and the peer differ.
    pub open spec fn same_settings(&self, other: &Connection) -> bool {
        &&& self.config == other.config
        &&& self.path == other.path
        &&& self.peer_params == other.peer_params
        &&& self.packet_overhead == other.packet_overhead
    }

    /// Largest payload that can be sent, or `None` where datagrams are disabled or unsupported
    pub open spec fn max_payload(&self) -> Option<int> {
        match (self.config.datagram_receive_buffer_size, self.peer_params.max_datagram_frame_size) {
            (Some(_), Some(frame)) => {
                let path = self.path.current_mtu - self.packet_overhead - DATAGRAM_SIZE_BOUND;
                let peer = if frame > DATAGRAM_SIZE_BOUND {
                    frame - DATAGRAM_SIZE_BOUND
                } else {
                    0
                };
                Some(
                    if peer < path {
                        peer
                    } else {
                        path
                    },
                )
            },
            _ => None,
        }
    }

    /// Byte limit of the send buffer under a smoothed BDP estimate
    pub open spec fn limit_under(&self, bdp: Option<int>) -> int {
        match (self.config.datagram_send_buffer_bdp, bdp) {
            (Some(config), Some(bdp)) => adaptive_limit(
                self.config.datagram_send_buffer_size as int,
                config,
                bdp,
            ),
            _ => self.config.datagram_send_buffer_size as int,
        }
    }

    /// Byte limit of the send buffer under the estimate as it stands
    pub open spec fn current_limit(&self) -> int {
        self.limit_under(estimate(self.datagrams.bdp_ewma))
    }

    /// The smoothed BDP estimate once the next datagram is offered
    pub open spec fn next_estimate(&self) -> Option<int> {
        match (self.config.datagram_send_buffer_bdp, self.path.bdp_estimate) {
            (Some(_), Some(sample)) => Some(
                ewma_next(estimate(self.datagrams.bdp_ewma), sample as int),
            ),
            _ => estimate(self.datagrams.bdp_ewma),
        }
    }

    /// Byte limit of the send buffer that the next datagram offered is held to:
    /// the configured size unless the path's BDP is estimated
    pub open spec fn next_limit(&self) -> int {
        match self.path.bdp_estimate {
            Some(_) => self.limit_under(self.next_estimate()),
            None => self.config.datagram_send_buffer_size as int,
        }
    }
}

/// API to control datagram traffic
pub struct Datagrams<'a> {
    pub conn: &'a mut Connection,
}

/// What is queued for a datagram that is accepted
pub open spec fn queued_as(data: Bytes, now: Instant) -> QueuedDatagram {
    QueuedDatagram { queued_at: now, datagram: Datagram { data } }
}

/// Why a datagram cannot be sent, if it cannot: datagrams are off on either
/// side, it is too large, or it would have to wait for room in the send buffer
pub open spec fn refusal(conn: Connection, data: Bytes, drop: bool) -> Option<SendDatagramError> {
    let len = bytes_contents(data).len();
    if conn.config.datagram_receive_buffer_size is None {
        Some(SendDatagramError::Disabled)
    } else if conn.max_payload() is None {
        Some(SendDatagramError::UnsupportedByPeer)
    } else if len > conn.max_payload()->0 {
        Some(SendDatagramError::TooLarge)
    } else if !drop && conn.datagrams.outgoing_total + len > conn.next_limit() {
        Some(SendDatagramError::Blocked(data))
    } else {
        None
    }
}

/// The machine words that an offered datagram is counted in can hold the counts.
pub open spec fn counts_fit(
    conn: Connection,
    data: Bytes,
    drop: bool,
    class: DatagramClass,
) -> bool {
    let held = if conn.next_limit() < conn.datagrams.outgoing_total {
        conn.next_limit()
    } else {
        conn.datagrams.outgoing_total as int
    };
    let stats = conn.stats.datagram_tx;
    &&& held + bytes_contents(data).len() <= usize::MAX
    &&& drop ==> stats.dropped_overflow + conn.datagrams.schedule().queued() <= u64::MAX
    &&& class.ecn is Some ==> stats.ecn_count(class.ecn->0) < u64::MAX
}

/// What accepting a datagram makes of the connection: where older datagrams may
/// be dropped, as few as bring the send buffer down to its limit are evicted,
/// each from the head of a fattest flow; then the datagram joins its flow.
pub open spec fn accepted(
    before: Connection,
    after: Connection,
    data: Bytes,
    drop: bool,
    now: Instant,
    class: DatagramClass,
) -> bool {
    let bucket = bucket_of(class.flow, before.config.datagram_send_aqm);
    let old_stats = before.stats.datagram_tx;
    let new_stats = after.stats.datagram_tx;
    &&& after.same_settings(&before)
    &&& estimate(after.datagrams.bdp_ewma) == before.next_estimate()
    &&& after.datagrams.incoming == before.datagrams.incoming
    &&& after.datagrams.send_blocked == before.datagrams.send_blocked
    &&& new_stats.dropped_aqm == old_stats.dropped_aqm
    &&& forall|e| #[trigger]
        new_stats.ecn_count(e) == old_stats.ecn_count(e) + (if class.ecn == Some(e) {
            1int
        } else {
            0
        })
    &&& if drop {
        exists|kept: Schedule, n: nat|
            {
                &&& #[trigger] evictions(before.datagrams.schedule(), kept, before.next_limit(), n)
                &&& new_stats.dropped_overflow == old_stats.dropped_overflow + n
                &&& after.datagrams.schedule() == kept.enqueued(bucket, queued_as(data, now))
            }
    } else {
        &&& new_stats.dropped_overflow == old_stats.dropped_overflow
        &&& after.datagrams.schedule() == before.datagrams.schedule().enqueued(
            bucket,
            queued_as(data, now),
        )
    }
}

impl<'a> Datagrams<'a> {
    /// The connection as it stands
    pub open spec fn connection(&self) -> Connection {
        *self.conn
    }

    /// Queue an unreliable, unordered datagram for immediate transmission
    ///
    /// If `drop` is true, previously queued datagrams which are still unsent may be discarded to
    /// make space for this datagram: each time the oldest one of a flow with the largest backlog,
    /// so that a single flow goes in order of oldest to newest. If `drop` is false, and there
    /// isn't enough space due to previously queued datagrams, this function will return
    /// `SendDatagramError::Blocked`, and the connection will note that a sender waits for room.
    ///
    /// Returns `Err` iff a `len`-byte datagram cannot currently be sent.
    pub fn send(&mut self, data: Bytes, drop: bool, now: Instant) -> (result: Result<
        (),
        SendDatagramError,
    >)
        requires
            old(self).conn.wf(),
            counts_fit(*old(self).conn, data, drop, unclassified()),
        ensures
            *final(final(self).conn) == *final(old(self).conn),
            final(self).conn.wf(),
            match refusal(*old(self).conn, data, drop) {
                None => {
                    &&& result is Ok
                    &&& accepted(
                        *old(self).conn,
                        *final(self).conn,
                        data,
                        drop,
                        now,
                        unclassified(),
                    )
                },
                Some(error) => {
                    &&& result == Err::<(), SendDatagramError>(error)
                    &&& refused(*old(self).conn, *final(self).conn, error)
                },
            },
    {
        self.send_classified(data, drop, now, DatagramClass::default())
    }

    /// [`Self::send`] with a caller-supplied [`DatagramClass`]
    ///
    /// The classification feeds the inner-ECN distribution counters in the
    /// connection's statistics and keys per-flow queueing when the
    /// AQM runs with more than one flow queue.
    pub fn send_classified(
        &mut self,
        data: Bytes,
        drop: bool,
        now: Instant,
        class: DatagramClass,
    ) -> (result: Result<(), SendDatagramError>)
        requires
            old(self).conn.wf(),
            counts_fit(*old(self).conn, data, drop, class),
        ensures
            *final(final(self).conn) == *final(old(self).conn),
            final(self).conn.wf(),
            match refusal(*old(self).conn, data, drop) {
                None => {
                    &&& result is Ok
                    &&& accepted(*old(self).conn, *final(self).conn, data, drop, now, class)
                },
                Some(error) => {
                    &&& result == Err::<(), SendDatagramError>(error)
                    &&& refused(*old(self).conn, *final(self).conn, error)
                },
            },
    {
        if self.conn.config.datagram_receive_buffer_size.is_none() {
            return Err(SendDatagramError::Disabled);
        }
        let max: usize = match self.max_size() {
            Some(max) => max,
            None => {
                return Err(SendDatagramError::UnsupportedByPeer);
            },
        };
        let len: usize = data.len();
        if len > max {
            return Err(SendDatagramError::TooLarge);
        }
        let ghost before = *self.conn;
        let ghost start = self.conn.datagrams.schedule();
        let limit: usize = self.effective_send_buffer_size();
        let ghost mut n: nat = 0;
        if drop {
            while self.conn.datagrams.outgoing_total > limit
                invariant
                    *final(self.conn) == *final(old(self).conn),
                    self.conn.wf(),
                    self.conn.same_settings(&before),
                    estimate(self.conn.datagrams.bdp_ewma) == before.next_estimate(),
                    self.conn.datagrams.incoming == before.datagrams.incoming,
                    self.conn.datagrams.send_blocked == before.datagrams.send_blocked,
                    limit == before.next_limit(),
                    start == before.datagrams.schedule(),
                    self.conn.stats.datagram_tx == (DatagramTxStats {
                        dropped_overflow: self.conn.stats.datagram_tx.dropped_overflow,
                        ..before.stats.datagram_tx
                    }),
                    self.conn.stats.datagram_tx.dropped_overflow
                        == before.stats.datagram_tx.dropped_overflow + n,
                    self.conn.stats.datagram_tx.dropped_overflow
                        + self.conn.datagrams.schedule().queued() <= u64::MAX,
                    self.conn.datagrams.outgoing_total <= before.datagrams.outgoing_total,
                    forall|kept: Schedule, m: nat| #[trigger]
                        evictions(self.conn.datagrams.schedule(), kept, limit as int, m)
                            ==> evictions(start, kept, limit as int, m + n),
                decreases self.conn.datagrams.schedule().queued(),
            {
                let ghost s = self.conn.datagrams.schedule();
                match self.conn.datagrams.evict_from_fattest_flow() {
                    Some(_) => {
                        proof {
                            let t = self.conn.datagrams.schedule();
                            let b = choose|b: u32| #[trigger] s.is_fattest(b) && t == s.evicted(b);
                            lemma_evicted(s, b);
                            assert forall|kept: Schedule, m: nat| #[trigger]
                                evictions(t, kept, limit as int, m) implies evictions(
                                start,
                                kept,
                                limit as int,
                                m + (n + 1),
                            ) by {
                                assert(evictions(s, kept, limit as int, m + 1));
                            }
                            n = n + 1;
                        }
                        self.conn.stats.datagram_tx.dropped_overflow =
                        self.conn.stats.datagram_tx.dropped_overflow + 1;
                    },
                    None => {
                        proof {
                            lemma_empty(s);
                            assert(false);
                        }
                        return Ok(());
                    },
                }
            }
        } else if len > limit || self.conn.datagrams.outgoing_total > limit - len {
            self.conn.datagrams.send_blocked = true;
            return Err(SendDatagramError::Blocked(data));
        }
        let ghost kept = self.conn.datagrams.schedule();
        proof {
            if drop {
                assert(evictions(kept, kept, limit as int, 0));
                assert(evictions(start, kept, limit as int, 0 + n));
            }
        }
        self.conn.stats.datagram_tx.record_ecn(class.ecn);
        let bucket: u32 = bucket_for(class.flow, self.conn.config.datagram_send_aqm.as_ref());
        self.conn.datagrams.enqueue(
            bucket,
            QueuedDatagram { queued_at: now, datagram: Datagram { data } },
        );
        Ok(())
    }

    /// Compute the maximum size of datagrams that may passed to `send_datagram`
    ///
    /// Returns `None` if datagrams are unsupported by the peer or disabled locally.
    ///
    /// This may change over the lifetime of a connection according to variation in the path MTU
    /// estimate. The peer can also enforce an arbitrarily small fixed limit, but if the peer's
    /// limit is large this is guaranteed to be a little over a kilobyte at minimum.
    ///
    /// Not necessarily the maximum size of received datagrams.
    pub fn max_size(&self) -> (max: Option<usize>)
        requires
            self.connection().header_fits(),
        ensures
            match max {
                Some(max) => self.connection().max_payload() == Some(max as int),
                None => self.connection().max_payload() is None,
            },
    {
        // We use the conservative overhead bound for any packet number, reducing the budget by at
        // most 3 bytes, so that PN size fluctuations don't cause users sending maximum-size
        // datagrams to suffer avoidable packet loss.
        let max_size: usize = self.conn.path.current_mtu as usize - self.conn.packet_overhead
            - DATAGRAM_SIZE_BOUND;
        if self.conn.config.datagram_receive_buffer_size.is_none() {
            return None;
        }
        match self.conn.peer_params.max_datagram_frame_size {
            Some(frame) => {
                let limit: u64 = frame.saturating_sub(DATAGRAM_SIZE_BOUND as u64);
                if limit < max_size as u64 {
                    Some(limit as usize)
                } else {
                    Some(max_size)
                }
            },
            None => None,
        }
    }

    /// Receive an unreliable, unordered datagram
    pub fn recv(&mut self) -> (data: Option<Bytes>)
        requires
            old(self).conn.datagrams.wf(),
        ensures
            *final(final(self).conn) == *final(old(self).conn),
            final(self).conn.datagrams.wf(),
            old(self).conn.wf() ==> final(self).conn.wf(),
            final(self).conn.same_settings(old(self).conn),
            final(self).conn.stats == old(self).conn.stats,
            final(self).conn.datagrams.same_but_incoming(&old(self).conn.datagrams),
            match data {
                Some(x) => {
                    &&& old(self).conn.datagrams.incoming@.len() > 0
                    &&& x == old(self).conn.datagrams.incoming@[0].data
                    &&& final(self).conn.datagrams.incoming@
                        == old(self).conn.datagrams.incoming@.drop_first()
                },
                None => {
                    &&& old(self).conn.datagrams.incoming@.len() == 0
                    &&& final(self).conn.datagrams.incoming@ == old(self).conn.datagrams.incoming@
                },
            },
    {
        self.conn.datagrams.recv()
    }

    /// Bytes available in the outgoing datagram buffer
    ///
    /// When greater than zero, [`send`](Self::send)ing a datagram of at most this size is
    /// guaranteed not to cause older datagrams to be dropped. There is no such space where that
    /// send, by the path's estimate that it takes in, would shrink the buffer below what it holds.
    pub fn send_buffer_space(&self) -> (space: usize)
        requires
            self.connection().config.wf(),
        ensures
            ({
                let held = self.connection().datagrams.outgoing_total;
                let limit = self.connection().current_limit();
                space == if held <= self.connection().next_limit() && held < limit {
                    limit - held
                } else {
                    0
                }
            }),
    {
        let configured: usize = self.conn.config.datagram_send_buffer_size;
        let held: usize = self.conn.datagrams.outgoing_total;
        let (current, next): (usize, usize) = match &self.conn.config.datagram_send_buffer_bdp {
            Some(config) => {
                let bdp: Option<u64> = self.conn.datagrams.bdp_ewma;
                let current: usize = match bdp {
                    Some(bdp) => adaptive_send_buffer_limit(configured, config, bdp),
                    None => configured,
                };
                let next: usize = match self.conn.path.bdp_estimate {
                    Some(sample) => adaptive_send_buffer_limit(
                        configured,
                        config,
                        smoothed(bdp, sample),
                    ),
                    None => configured,
                };
                (current, next)
            },
            None => (configured, configured),
        };
        if held > next {
            0
        } else {
            current.saturating_sub(held)
        }
    }

    /// Effective send-buffer byte limit for this enqueue: the fixed
    /// configured size, shrunk toward the path's measured BDP when adaptive
    /// sizing is on and the congestion controller has an estimate
    fn effective_send_buffer_size(&mut self) -> (limit: usize)
        requires
            old(self).conn.wf(),
        ensures
            *final(final(self).conn) == *final(old(self).conn),
            limit == old(self).conn.next_limit(),
            estimate(final(self).conn.datagrams.bdp_ewma) == old(self).conn.next_estimate(),
            *final(self).conn == (Connection {
                datagrams: DatagramState {
                    bdp_ewma: final(self).conn.datagrams.bdp_ewma,
                    ..old(self).conn.datagrams
                },
                ..*old(self).conn
            }),
    {
        let configured: usize = self.conn.config.datagram_send_buffer_size;
        let config: DatagramBdpBufferConfig = match self.conn.config.datagram_send_buffer_bdp {
            Some(config) => config,
            None => {
                return configured;
            },
        };
        let sample: u64 = match self.conn.path.bdp_estimate {
            Some(sample) => sample,
            None => {
                return configured;
            },
        };
        let bdp: u64 = self.conn.datagrams.update_bdp_ewma(sample);
        adaptive_send_buffer_limit(configured, &config, bdp)
    }
}

/// What refusing a datagram makes of the connection: nothing, unless the sender
/// has to wait for room, which is noted, the path's estimate having been updated
pub open spec fn refused(before: Connection, after: Connection, error: SendDatagramError) -> bool {
    match error {
        SendDatagramError::Blocked(_) => {
            &&& estimate(after.datagrams.bdp_ewma) == before.next_estimate()
            &&& after == (Connection {
                datagrams: DatagramState {
                    send_blocked: true,
                    bdp_ewma: after.datagrams.bdp_ewma,
                    ..before.datagrams
                },
                ..before
            })
        },
        _ => after == before,
    }
}

/// Free space is free: a datagram of at most the size reported free, if that is
/// not zero, displaces no other. It is accepted where path and peer allow it,
/// unless it must not displace any and exceeds the limit that it is held to.
pub proof fn law_free_space_is_free(
    before: Connection,
    after: Connection,
    data: Bytes,
    drop: bool,
    now: Instant,
    class: DatagramClass,
)
    requires
        before.wf(),
        before.datagrams.outgoing_total <= before.next_limit(),
        before.datagrams.outgoing_total < before.current_limit(),
        bytes_contents(data).len() <= before.current_limit() - before.datagrams.outgoing_total,
    ensures
        accepted(before, after, data, drop, now, class) ==> {
            &&& after.datagrams.schedule() == before.datagrams.schedule().enqueued(
                bucket_of(class.flow, before.config.datagram_send_aqm),
                queued_as(data, now),
            )
            &&& after.stats.datagram_tx.dropped_overflow
                == before.stats.datagram_tx.dropped_overflow
        },
        ({
            &&& before.max_payload() is Some
            &&& bytes_contents(data).len() <= before.max_payload()->0
            &&& drop || before.datagrams.outgoing_total + bytes_contents(data).len()
                <= before.next_limit()
        }) ==> refusal(before, data, drop) is None,
{
    if drop && accepted(before, after, data, drop, now, class) {
        lemma_evicted_for(before, after, data, now, class);
    }
}

/// An unclassified datagram joins the shared bucket, whatever the queue
/// management, and is counted under no codepoint.
pub proof fn law_unclassified_is_shared(
    before: Connection,
    after: Connection,
    data: Bytes,
    drop: bool,
    now: Instant,
)
    requires
        before.wf(),
        accepted(before, after, data, drop, now, unclassified()),
    ensures
        forall|e: DatagramEcn| #[trigger]
            after.stats.datagram_tx.ecn_count(e) == before.stats.datagram_tx.ecn_count(e),
        !drop ==> after.datagrams.schedule() == before.datagrams.schedule().enqueued(
            SHARED_BUCKET,
            queued_as(data, now),
        ),
        drop ==> exists|kept: Schedule, n: nat|
            {
                &&& #[trigger] evictions(before.datagrams.schedule(), kept, before.next_limit(), n)
                &&& after.datagrams.schedule() == kept.enqueued(SHARED_BUCKET, queued_as(data, now))
            },
{
    if drop {
        lemma_evicted_for(before, after, data, now, unclassified());
    }
}

/// What is kept, and how many datagrams are evicted, when one is accepted that
/// may displace others
proof fn lemma_evicted_for(
    before: Connection,
    after: Connection,
    data: Bytes,
    now: Instant,
    class: DatagramClass,
) -> (r: (Schedule, nat))
    requires
        before.wf(),
        accepted(before, after, data, true, now, class),
    ensures
        evictions(before.datagrams.schedule(), r.0, before.next_limit(), r.1),
        r.0.wf(),
        r.0.backlog() <= before.next_limit(),
        before.datagrams.outgoing_total <= before.next_limit() ==> r.1 == 0 && r.0
            == before.datagrams.schedule(),
        after.stats.datagram_tx.dropped_overflow == before.stats.datagram_tx.dropped_overflow + r.1,
        after.datagrams.schedule() == r.0.enqueued(
            bucket_of(class.flow, before.config.datagram_send_aqm),
            queued_as(data, now),
        ),
{
    let (kept, n) = choose|kept: Schedule, n: nat|
        {
            &&& #[trigger] evictions(before.datagrams.schedule(), kept, before.next_limit(), n)
            &&& after.stats.datagram_tx.dropped_overflow
                == before.stats.datagram_tx.dropped_overflow + n
            &&& after.datagrams.schedule() == kept.enqueued(
                bucket_of(class.flow, before.config.datagram_send_aqm),
                queued_as(data, now),
            )
        };
    law_evictions_reach_the_limit(before.datagrams.schedule(), kept, before.next_limit(), n, 0);
    (kept, n)
}

/// The send buffer is bounded: after a datagram is accepted it holds at most its
/// limit, and that datagram on top only where others were allowed to be displaced.
pub proof fn law_send_buffer_is_bounded(
    before: Connection,
    after: Connection,
    data: Bytes,
    drop: bool,
    now: Instant,
    class: DatagramClass,
)
    requires
        before.wf(),
        refusal(before, data, drop) is None,
        accepted(before, after, data, drop, now, class),
    ensures
        after.datagrams.schedule().backlog() <= before.next_limit() + (if drop {
            bytes_contents(data).len() as int
        } else {
            0
        }),
{
    let bucket = bucket_of(class.flow, before.config.datagram_send_aqm);
    if drop {
        let (kept, n) = lemma_evicted_for(before, after, data, now, class);
        lemma_enqueued(kept, bucket, queued_as(data, now));
    } else {
        lemma_enqueued(before.datagrams.schedule(), bucket, queued_as(data, now));
    }
}

/// On a path that carries QUIC's smallest packets, with at most a 20-byte
/// connection ID and a 16-byte authentication tag in them, a peer that accepts
/// large frames can be sent a little over a kilobyte.
pub proof fn law_a_kilobyte_can_always_be_sent(conn: Connection)
    requires
        conn.config.datagram_receive_buffer_size is Some,
        conn.peer_params.max_datagram_frame_size is Some,
        conn.peer_params.max_datagram_frame_size->0 >= 1159,
        conn.path.current_mtu >= 1200,
        conn.packet_overhead <= 41,
    ensures
        conn.max_payload() is Some,
        conn.max_payload()->0 >= 1150,
{
}

/// The adaptive limit never exceeds the configured size, and falls below the
/// floor only where the configured size does.
pub proof fn law_adaptation_only_shrinks(conn: Connection, bdp: Option<int>)
    requires
        conn.wf(),
    ensures
        conn.limit_under(bdp) <= conn.config.datagram_send_buffer_size,
        conn.config.datagram_send_buffer_bdp matches Some(config) ==> conn.limit_under(bdp)
            >= config.floor || conn.limit_under(bdp) == conn.config.datagram_send_buffer_size,
{
}

/// Whether a payload of `len` bytes can be framed for the peer and put into a
/// packet: a frame adds up to nine bytes, and an empty payload always passes
pub open spec fn passes(conn: Connection, frame: int, len: int) -> bool {
    &&& len == 0 || len + 9 <= frame
    &&& conn.packet_overhead + 9 + len <= conn.path.current_mtu
}

/// The largest payload is the largest that passes, and there is one exactly where
/// datagrams are enabled here and supported by the peer.
pub proof fn law_largest_payload_is_the_largest_that_passes(conn: Connection, len: int)
    requires
        conn.packet_overhead + 9 <= conn.path.current_mtu,
        len >= 0,
    ensures
        conn.max_payload() is Some <==> conn.config.datagram_receive_buffer_size is Some
            && conn.peer_params.max_datagram_frame_size is Some,
        conn.max_payload() matches Some(max) ==> max >= 0 && (len <= max <==> passes(
            conn,
            conn.peer_params.max_datagram_frame_size->0 as int,
            len,
        )),
{
}

/// Each error comes on exactly the datagrams that it is for, in this order:
/// datagrams are disabled here; the peer does not support them; the payload does
/// not pass; or there is no room for it in the send buffer and nothing may be
/// displaced, in which case it is handed back. Any other datagram is accepted.
pub proof fn law_each_refusal_has_its_cause(conn: Connection, data: Bytes, drop: bool)
    requires
        conn.packet_overhead + 9 <= conn.path.current_mtu,
    ensures
        ({
            let len = bytes_contents(data).len() as int;
            let error = refusal(conn, data, drop);
            let enabled = conn.config.datagram_receive_buffer_size is Some;
            let supported = conn.peer_params.max_datagram_frame_size is Some;
            let small = passes(conn, conn.peer_params.max_datagram_frame_size->0 as int, len);
            let room = conn.datagrams.outgoing_total + len <= conn.next_limit();
            &&& error == Some(SendDatagramError::Disabled) <==> !enabled
            &&& error == Some(SendDatagramError::UnsupportedByPeer) <==> enabled && !supported
            &&& error == Some(SendDatagramError::TooLarge) <==> enabled && supported && !small
            &&& error == Some(SendDatagramError::Blocked(data)) <==> enabled && supported && small
                && !drop && !room
            &&& error is None <==> enabled && supported && small && (drop || room)
        }),
{
    law_largest_payload_is_the_largest_that_passes(conn, bytes_contents(data).len() as int);
}

/// Whether a buffer limit is a smoothed estimate times the multiple, to the whole
/// byte, as far as floor and configured size allow
pub open spec fn follows(
    limit: int,
    configured: int,
    config: DatagramBdpBufferConfig,
    bdp: int,
) -> bool {
    let (n, d) = (config.multiple.numerator as int, config.multiple.denominator as int);
    &&& limit <= configured
    &&& limit >= config.floor || limit == configured
    &&& limit > config.floor ==> limit * d <= bdp * n
    &&& limit < configured ==> bdp * n < (limit + 1) * d
}

/// The limit as it stands is the configured size, unless adaptive sizing is on and
/// an estimate is stored: then it follows that estimate.
pub proof fn law_limit_follows_the_stored_estimate(conn: Connection)
    requires
        conn.config.wf(),
    ensures
        ({
            let configured = conn.config.datagram_send_buffer_size as int;
            match (conn.config.datagram_send_buffer_bdp, conn.datagrams.bdp_ewma) {
                (Some(config), Some(bdp)) => follows(
                    conn.current_limit(),
                    configured,
                    config,
                    bdp as int,
                ),
                _ => conn.current_limit() == configured,
            }
        }),
{
    if let (Some(config), Some(bdp)) = (
        conn.config.datagram_send_buffer_bdp,
        conn.datagrams.bdp_ewma,
    ) {
        law_limit_is_the_multiple_within_bounds(
            conn.config.datagram_send_buffer_size as int,
            config,
            bdp as int,
        );
    }
}

/// The limit that the next datagram is held to is the configured size, unless
/// adaptive sizing is on and the path has an estimate: then that is taken in, by an
/// eighth of its distance or, where none is stored, as it is, and the limit follows
/// the outcome. Otherwise the stored estimate stays.
pub proof fn law_next_limit_follows_the_path(conn: Connection)
    requires
        conn.config.wf(),
    ensures
        ({
            let configured = conn.config.datagram_send_buffer_size as int;
            let stored = conn.datagrams.bdp_ewma;
            match (conn.config.datagram_send_buffer_bdp, conn.path.bdp_estimate) {
                (Some(config), Some(sample)) => {
                    &&& conn.next_estimate() is Some
                    &&& follows(conn.next_limit(), configured, config, conn.next_estimate()->0)
                    &&& stored is None ==> conn.next_estimate()->0 == sample
                    &&& stored matches Some(prev) ==> {
                        let next = conn.next_estimate()->0;
                        &&& prev <= sample ==> next - prev == (sample - prev) / 8
                        &&& sample <= prev ==> prev - next == (prev - sample) / 8
                    }
                },
                _ => {
                    &&& conn.next_limit() == configured
                    &&& conn.next_estimate() is Some <==> stored is Some
                    &&& stored matches Some(prev) ==> conn.next_estimate()->0 == prev
                },
            }
        }),
{
    if let (Some(config), Some(sample)) = (
        conn.config.datagram_send_buffer_bdp,
        conn.path.bdp_estimate,
    ) {
        let next = conn.next_estimate()->0;
        law_limit_is_the_multiple_within_bounds(
            conn.config.datagram_send_buffer_size as int,
            config,
            next,
        );
    }
}

/// An accepted datagram joins the end of its flow, stamped with the time: bucket
/// zero, or with several queues the one that its key's remainder names. Every flow
/// keeps its datagrams but for the oldest, none where nothing may be displaced, and
/// all that are gone are counted. Its codepoint is counted, and nothing else.
pub proof fn law_accepted_datagram_joins_its_flow(
    before: Connection,
    after: Connection,
    data: Bytes,
    drop: bool,
    now: Instant,
    class: DatagramClass,
    b: u32,
)
    requires
        before.wf(),
        accepted(before, after, data, drop, now, class),
        ({
            let aqm = before.config.datagram_send_aqm;
            if class.flow is Some && aqm is Some && aqm->0.flow_queues > 1 {
                b - 1 == class.flow->0 as int % aqm->0.flow_queues as int
            } else {
                b == 0
            }
        }),
    ensures
        ({
            let (s, t) = (before.datagrams.schedule(), after.datagrams.schedule());
            let (old_stats, new_stats) = (before.stats.datagram_tx, after.stats.datagram_tx);
            let queue = queue_of(t, b);
            &&& queue.len() > 0
            &&& queue.last().queued_at == now
            &&& queue.last().datagram.data == data
            &&& is_rest_of(queue.drop_last(), queue_of(s, b))
            &&& forall|c: u32| c != b ==> is_rest_of(#[trigger] queue_of(t, c), queue_of(s, c))
            &&& !drop ==> queue.drop_last() == queue_of(s, b)
            &&& !drop ==> forall|c: u32| c != b ==> #[trigger] queue_of(t, c) == queue_of(s, c)
            &&& s.queued() + 1 - t.queued() == new_stats.dropped_overflow
                - old_stats.dropped_overflow
            &&& new_stats.dropped_aqm == old_stats.dropped_aqm
            &&& new_stats.ecn_not_ect - old_stats.ecn_not_ect == (if class.ecn == Some(
                DatagramEcn::NotEct,
            ) {
                1int
            } else {
                0
            })
            &&& new_stats.ecn_ect0 - old_stats.ecn_ect0 == (if class.ecn == Some(
                DatagramEcn::Ect0,
            ) {
                1int
            } else {
                0
            })
            &&& new_stats.ecn_ect1 - old_stats.ecn_ect1 == (if class.ecn == Some(
                DatagramEcn::Ect1,
            ) {
                1int
            } else {
                0
            })
            &&& new_stats.ecn_ce - old_stats.ecn_ce == (if class.ecn == Some(DatagramEcn::Ce) {
                1int
            } else {
                0
            })
            &&& after.datagrams.incoming == before.datagrams.incoming
            &&& after.datagrams.send_blocked == before.datagrams.send_blocked
            &&& after.config == before.config && after.path == before.path
            &&& after.peer_params == before.peer_params
            &&& after.packet_overhead == before.packet_overhead
        }),
{
    let s = before.datagrams.schedule();
    let t = after.datagrams.schedule();
    let d = queued_as(data, now);
    let (kept, n) = if drop {
        lemma_evicted_for(before, after, data, now, class)
    } else {
        (s, 0)
    };
    assert(bucket_of(class.flow, before.config.datagram_send_aqm) == b);
    assert forall|c: u32| is_rest_of(#[trigger] queue_of(kept, c), queue_of(s, c)) by {
        if drop {
            law_evictions_reach_the_limit(s, kept, before.next_limit(), n, c);
        } else {
            assert(queue_of(s, c).skip(0) =~= queue_of(s, c));
        }
    }
    if drop {
        law_evictions_reach_the_limit(s, kept, before.next_limit(), n, b);
    }
    assert forall|c: u32| c != b implies #[trigger] queue_of(t, c) == queue_of(kept, c) by {
        law_enqueue_adds_one(kept, b, d, c);
    }
    law_enqueue_adds_one(kept, b, d, b);
    assert(queue_of(t, b).drop_last() =~= queue_of(kept, b));
    law_codepoints_are_counted_apart(before.stats.datagram_tx);
    law_codepoints_are_counted_apart(after.stats.datagram_tx);
}

/// A refused datagram changes nothing, except that one that has to wait for room
/// leaves a note of that and the path's estimate taken in.
pub proof fn law_refusal_changes_nothing_else(
    before: Connection,
    after: Connection,
    error: SendDatagramError,
)
    requires
        refused(before, after, error),
    ensures
        error !is Blocked ==> after == before,
        after.datagrams.schedule() == before.datagrams.schedule(),
        after.datagrams.outgoing_total == before.datagrams.outgoing_total,
        after.datagrams.incoming == before.datagrams.incoming,
        after.stats == before.stats,
        after.config == before.config && after.path == before.path,
        after.peer_params == before.peer_params,
        after.packet_overhead == before.packet_overhead,
        error is Blocked ==> after.datagrams.send_blocked,
        error is Blocked ==> estimate(after.datagrams.bdp_ewma) == before.next_estimate(),
{
}

} // verus!
