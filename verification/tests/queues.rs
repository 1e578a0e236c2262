use bytes::Bytes;
use quic_datagrams::class::SHARED_BUCKET;
use quic_datagrams::config::{adaptive_send_buffer_limit, DatagramAqmConfig, DatagramBdpBufferConfig};
use quic_datagrams::flow::QueuedDatagram;
use quic_datagrams::frame::Datagram;
use quic_datagrams::state::{DatagramState, PROTOCOL_VIOLATION};
use quic_datagrams::stats::DatagramTxStats;
use quic_datagrams::time::{Duration, Instant};

fn aqm() -> DatagramAqmConfig {
    DatagramAqmConfig::default()
}

/// A moment well after the clock's origin.
fn start_time() -> Instant {
    Instant { nanos: 3_600_000_000_000 }
}

fn millis(n: u64) -> Duration {
    Duration::from_millis(n)
}

/// Enqueue a `len`-byte payload whose bytes tag its flow, on `bucket`,
/// at `queued_at`.
fn push(state: &mut DatagramState, bucket: u32, tag: u8, len: usize, queued_at: Instant) {
    let data = Bytes::from(vec![tag; len]);
    state.enqueue(
        bucket,
        QueuedDatagram {
            queued_at,
            datagram: Datagram { data },
        },
    );
}

/// Total bytes queued across every flow, recomputed from scratch.
fn recount(state: &DatagramState) -> usize {
    state
        .flows
        .values()
        .flat_map(|q| q.queue.iter())
        .map(|d| d.datagram.data.len())
        .sum()
}

#[test]
fn write_head_drops_stale_datagrams_and_counts_them() {
    let mut state = DatagramState::default();
    let config = aqm();
    let mut stats = DatagramTxStats::default();
    let start = start_time();
    // A queue whose head has been waiting far beyond target for well over
    // an interval, deep enough to stay above the backlog floor.
    for _ in 0..64 {
        push(&mut state, SHARED_BUCKET, 0, 1000, start);
    }
    let now = start.after(millis(500));
    // Prime the controller past first_above_time, as a live queue would
    // have done on earlier dequeues.
    let mut buf = Vec::new();
    assert!(state.write(&mut buf, usize::MAX, now, Some(&config), &mut stats));
    let later = now.after(millis(200));
    let mut buf = Vec::new();
    assert!(state.write(&mut buf, usize::MAX, later, Some(&config), &mut stats));
    assert!(
        stats.dropped_aqm > 0,
        "stale heads must be AQM-dropped before delivery"
    );
    assert_eq!(
        state.outgoing_total,
        recount(&state),
        "outgoing_total must stay in sync through AQM drops"
    );
}

#[test]
fn write_without_aqm_never_drops() {
    let mut state = DatagramState::default();
    let mut stats = DatagramTxStats::default();
    let start = start_time();
    for _ in 0..64 {
        push(&mut state, SHARED_BUCKET, 0, 1000, start);
    }
    let now = start.after(Duration::from_secs(10));
    let mut delivered = 0;
    let mut buf = Vec::new();
    while state.write(&mut buf, usize::MAX, now, None, &mut stats) {
        delivered += 1;
    }
    assert_eq!(delivered, 64);
    assert_eq!(stats.dropped_aqm, 0);
}

#[test]
fn single_bucket_preserves_fifo_order() {
    // The single-queue fallback (flow_queues = 1, or unclassified
    // traffic) must deliver in exact enqueue order: the DRR machinery
    // degenerates to a FIFO.
    let mut state = DatagramState::default();
    let mut stats = DatagramTxStats::default();
    let now = start_time();
    for tag in 0..32u8 {
        push(&mut state, SHARED_BUCKET, tag, 1000, now);
    }
    let mut order = Vec::new();
    loop {
        let mut buf = Vec::new();
        if !state.write(&mut buf, usize::MAX, now, Some(&aqm()), &mut stats) {
            break;
        }
        // The payload sits at the end of the encoded frame; every one of
        // its bytes is the tag.
        order.push(*buf.last().unwrap());
    }
    assert_eq!(order, (0..32u8).collect::<Vec<_>>());
    assert_eq!(stats.dropped_aqm, 0, "a fresh queue must not drop");
    assert!(state.is_empty());
    assert_eq!(state.outgoing_total, 0);
}

#[test]
fn sparse_flow_is_not_starved_or_dropped_by_a_flooding_flow() {
    // A bulk flow with a standing queue deep in CoDel's dropping state
    // and a sparse flow with one fresh packet: the sparse packet must go
    // out promptly (new-flow priority) and must never be CoDel-dropped
    // (its own sojourn is below target even though the bulk queue is way
    // above).
    let mut state = DatagramState::default();
    let config = aqm();
    let mut stats = DatagramTxStats::default();
    let start = start_time();
    for _ in 0..512 {
        push(&mut state, 1, 0xbb, 1200, start);
    }
    // Serve the bulk queue with time advancing so its CoDel walks
    // through first_above_time into the dropping state, and past its
    // FIRST DRR quantum so it has rotated onto the old-flows list (a
    // flow only holds new-list priority for one quantum after birth).
    let mut now = start.after(millis(400));
    for _ in 0..16 {
        let mut buf = Vec::new();
        state.write(&mut buf, usize::MAX, now, Some(&config), &mut stats);
        now = now.after(millis(50));
    }
    assert!(
        stats.dropped_aqm > 0,
        "bulk standing queue must be dropping"
    );

    // The sparse flow arrives now, on its own bucket.
    let later = now.after(millis(10));
    push(&mut state, 2, 0x55, 100, later);
    let dropped_before = stats.dropped_aqm;
    let mut buf = Vec::new();
    assert!(state.write(&mut buf, usize::MAX, later, Some(&config), &mut stats));
    assert_eq!(
        *buf.last().unwrap(),
        0x55,
        "the fresh sparse packet must be scheduled before the bulk backlog"
    );
    assert_eq!(
        stats.dropped_aqm, dropped_before,
        "serving the sparse flow must not drop anything"
    );
    assert_eq!(state.outgoing_total, recount(&state));
}

#[test]
fn drr_shares_bandwidth_between_two_bulk_flows() {
    // Two backlogged flows with very different packet sizes: the DRR
    // quantum must interleave service byte-fairly instead of draining
    // one flow before touching the other.
    let mut state = DatagramState::default();
    let mut stats = DatagramTxStats::default();
    let now = start_time();
    for _ in 0..64 {
        push(&mut state, 1, 0xaa, 1200, now);
    }
    for _ in 0..192 {
        push(&mut state, 2, 0xcc, 400, now);
    }
    let (mut a_bytes, mut c_bytes) = (0usize, 0usize);
    let mut both_served_at_quarter = false;
    let mut served = 0;
    loop {
        let mut buf = Vec::new();
        if !state.write(&mut buf, usize::MAX, now, None, &mut stats) {
            break;
        }
        served += 1;
        match *buf.last().unwrap() {
            0xaa => a_bytes += 1200,
            0xcc => c_bytes += 400,
            other => panic!("unexpected tag {other}"),
        }
        if served == 64 {
            both_served_at_quarter = a_bytes.min(c_bytes) > 0;
        }
    }
    assert_eq!(a_bytes, 64 * 1200);
    assert_eq!(c_bytes, 192 * 400);
    assert!(
        both_served_at_quarter,
        "DRR must interleave flows, not drain them serially"
    );
}

#[test]
fn overflow_eviction_hits_the_fattest_flow() {
    let mut state = DatagramState::default();
    let now = start_time();
    push(&mut state, 1, 0xbb, 1200, now);
    push(&mut state, 1, 0xbb, 1200, now);
    push(&mut state, 2, 0x55, 100, now);
    let evicted = state.evict_from_fattest_flow().unwrap();
    assert_eq!(evicted, 1200, "the bulk flow must pay for the overflow");
    assert_eq!(state.outgoing_total, recount(&state));
    // Draining continues from the fattest until nothing is left.
    assert_eq!(state.evict_from_fattest_flow(), Some(1200));
    assert_eq!(state.evict_from_fattest_flow(), Some(100));
    assert_eq!(state.evict_from_fattest_flow(), None);
    assert_eq!(state.outgoing_total, 0);
}

#[test]
fn drained_flows_are_unregistered() {
    // Per-flow state must not accumulate: after a drain the flow map is
    // empty again (the write scheduler removes exhausted flows).
    let mut state = DatagramState::default();
    let mut stats = DatagramTxStats::default();
    let now = start_time();
    for bucket in 1..=16u32 {
        push(&mut state, bucket, bucket as u8, 500, now);
    }
    let mut buf = Vec::new();
    while state.write(&mut buf, usize::MAX, now, Some(&aqm()), &mut stats) {
        buf.clear();
    }
    assert!(state.is_empty());
    assert!(
        state.flows.is_empty(),
        "drained flow queues must be removed, not leak per-flow state"
    );
    assert!(state.new_flows.is_empty() && state.old_flows.is_empty());
}

#[test]
fn drop_oversized_prunes_every_flow() {
    let mut state = DatagramState::default();
    let now = start_time();
    push(&mut state, 1, 0xaa, 1400, now);
    push(&mut state, 1, 0xaa, 200, now);
    push(&mut state, 2, 0xcc, 1400, now);
    state.drop_oversized(1000);
    assert_eq!(state.outgoing_total, 200);
    assert_eq!(state.outgoing_total, recount(&state));
}

#[test]
fn drop_oversized_keeps_what_can_still_be_sent() {
    let mut state = DatagramState::default();
    let now = start_time();
    for len in [999usize, 1001, 1000, 3] {
        push(&mut state, 1, 0xaa, len, now);
    }
    state.drop_oversized(1000);
    let kept: Vec<usize> = state.flows[&1].queue.iter().map(|d| d.datagram.data.len()).collect();
    assert_eq!(kept, [999, 1000, 3]);
    assert_eq!(state.flows[&1].bytes, 2002);
    assert_eq!(state.outgoing_total, 2002);
}

#[test]
fn adaptive_limit_clamps_between_floor_and_configured() {
    let config = DatagramBdpBufferConfig::default();
    let configured = 16 * 1024 * 1024;
    // Slow path: 4 x 62 KB BDP is below the 1 MiB floor.
    assert_eq!(
        adaptive_send_buffer_limit(configured, &config, 62_000),
        1024 * 1024
    );
    // Mid path: the multiple applies untouched.
    assert_eq!(
        adaptive_send_buffer_limit(configured, &config, 1_000_000),
        4_000_000
    );
    // Fast path: never above the configured cap.
    assert_eq!(
        adaptive_send_buffer_limit(configured, &config, 100_000_000),
        configured
    );
    // A configured cap below the floor wins: adaptation only shrinks.
    assert_eq!(
        adaptive_send_buffer_limit(64 * 1024, &config, 62_000),
        64 * 1024
    );
}

#[test]
fn adaptive_multiple_clamps_below_one() {
    let mut config = DatagramBdpBufferConfig::default();
    config.multiple(1, 4);
    // A sub-BDP buffer cannot keep the pipe full: 1x is the minimum.
    assert_eq!(
        adaptive_send_buffer_limit(16 * 1024 * 1024, &config, 2_000_000),
        2_000_000
    );
}

#[test]
fn adaptive_multiple_may_be_a_fraction() {
    let mut config = DatagramBdpBufferConfig::default();
    config.multiple(5, 2);
    config.floor(0);
    assert_eq!(adaptive_send_buffer_limit(usize::MAX, &config, 1_000_001), 2_500_002);
    assert_eq!(adaptive_send_buffer_limit(usize::MAX, &config, u64::MAX), usize::MAX);
    assert_eq!(adaptive_send_buffer_limit(usize::MAX, &config, 0), 0);
}

#[test]
fn bdp_ewma_seeds_then_converges() {
    let mut state = DatagramState::default();
    assert_eq!(state.update_bdp_ewma(80_000), 80_000, "first sample seeds");
    // A sustained 8x drop must pull the estimate most of the way down
    // within a few dozen samples (alpha 1/8).
    let mut last = 0;
    for _ in 0..32 {
        last = state.update_bdp_ewma(10_000);
    }
    assert!(
        last < 12_000,
        "EWMA must converge toward the sustained sample, got {last}"
    );
    // And a single outlier barely moves it.
    let after_spike = state.update_bdp_ewma(1_000_000);
    assert!(
        after_spike < 150_000,
        "one outlier must not swing the estimate, got {after_spike}"
    );
}

#[test]
fn bdp_ewma_moves_an_eighth_of_the_way() {
    let mut state = DatagramState::default();
    state.update_bdp_ewma(100);
    assert_eq!(state.update_bdp_ewma(0), 88);
    assert_eq!(state.update_bdp_ewma(95), 88);
    assert_eq!(state.update_bdp_ewma(96), 89);
    assert_eq!(state.update_bdp_ewma(u64::MAX), 89 + (u64::MAX - 89) / 8);
}

#[test]
fn can_write_and_is_empty_see_every_flow() {
    let mut state = DatagramState::default();
    assert!(state.is_empty());
    assert!(!state.can_write(usize::MAX));
    let now = start_time();
    push(&mut state, 7, 0xaa, 1000, now);
    assert!(!state.is_empty());
    assert!(state.can_write(usize::MAX));
    assert!(
        !state.can_write(8),
        "a head that cannot fit must not report writability"
    );
}

#[test]
fn a_frame_carries_type_length_and_payload() {
    let now = start_time();
    for (len, header) in [
        (0usize, vec![0x31u8, 0]),
        (63, vec![0x31, 63]),
        (64, vec![0x31, 0x40, 64]),
        (16_383, vec![0x31, 0x7f, 0xff]),
        (16_384, vec![0x31, 0x80, 0, 0x40, 0]),
    ] {
        let mut state = DatagramState::default();
        let mut stats = DatagramTxStats::default();
        push(&mut state, 3, 0xee, len, now);
        let size = header.len() + len;
        assert!(state.can_write(size) && !state.can_write(size - 1));
        // What is in the buffer already counts against the limit.
        let mut buf = vec![9u8];
        assert!(!state.write(&mut buf, size, now, None, &mut stats));
        assert_eq!(buf, [9]);
        assert!(state.write(&mut buf, size + 1, now, None, &mut stats));
        assert_eq!(buf[0], 9);
        assert_eq!(&buf[1..1 + header.len()], &header[..]);
        assert_eq!(&buf[1 + header.len()..], &vec![0xeeu8; len][..]);
    }
}

#[test]
fn a_frame_may_run_to_the_end_of_its_packet() {
    let datagram = Datagram { data: Bytes::from(vec![1u8, 2, 3]) };
    let mut out = Vec::new();
    datagram.encode(false, &mut out);
    assert_eq!(out, [0x30, 1, 2, 3]);
    assert_eq!(datagram.size(false), 4);
    assert_eq!(datagram.size(true), 5);
}

#[test]
fn a_head_that_does_not_fit_keeps_its_place() {
    let mut state = DatagramState::default();
    let mut stats = DatagramTxStats::default();
    let now = start_time();
    push(&mut state, 1, 0x11, 100, now);
    push(&mut state, 1, 0x22, 5, now);
    let mut buf = Vec::new();
    assert!(!state.write(&mut buf, 50, now, None, &mut stats));
    assert!(buf.is_empty());
    assert_eq!(state.outgoing_total, 105);
    assert!(state.write(&mut buf, 200, now, None, &mut stats));
    assert_eq!(*buf.last().unwrap(), 0x11);
}

#[test]
fn received_datagrams_come_out_in_order() {
    let mut state = DatagramState::default();
    let window = Some(10);
    let datagram = |tag: u8, len: usize| Datagram { data: Bytes::from(vec![tag; len]) };
    assert_eq!(state.received(datagram(1, 4), &window), Ok(true));
    assert_eq!(state.received(datagram(2, 4), &window), Ok(false));
    // The oldest makes room, and no more than that.
    assert_eq!(state.received(datagram(3, 5), &window), Ok(false));
    assert_eq!(state.recv_buffered, 9);
    assert_eq!(state.recv(), Some(Bytes::from(vec![2u8; 4])));
    assert_eq!(state.recv(), Some(Bytes::from(vec![3u8; 5])));
    assert_eq!(state.recv(), None);
    assert_eq!(state.recv_buffered, 0);
    assert_eq!(state.received(datagram(4, 10), &window), Ok(true));
    assert_eq!(state.received(datagram(5, 10), &window), Ok(false));
    assert_eq!(state.recv(), Some(Bytes::from(vec![5u8; 10])));
    // Empty datagrams take no room.
    assert_eq!(state.received(datagram(6, 0), &Some(0)), Ok(true));
    assert_eq!(state.received(datagram(7, 0), &Some(0)), Ok(true));
    assert_eq!(state.incoming.len(), 2);
}

#[test]
fn unexpected_and_oversized_datagrams_violate_the_protocol() {
    let mut state = DatagramState::default();
    let datagram = || Datagram { data: Bytes::from(vec![0u8; 11]) };
    let unexpected = state.received(datagram(), &None).unwrap_err();
    assert_eq!(unexpected.code, PROTOCOL_VIOLATION);
    assert_eq!(unexpected.reason, "unexpected DATAGRAM frame");
    let oversized = state.received(datagram(), &Some(10)).unwrap_err();
    assert_eq!(oversized.code, PROTOCOL_VIOLATION);
    assert_eq!(oversized.reason, "oversized datagram");
    assert_eq!(state.recv(), None);
}
