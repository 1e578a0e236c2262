use bytes::Bytes;
use quic_datagrams::class::DatagramClass;
use quic_datagrams::codel::CodelState;
use quic_datagrams::config::{DatagramAqmConfig, TransportConfig};
use quic_datagrams::datagrams::{
    Connection, ConnectionStats, Datagrams, PathData, TransportParameters,
};
use quic_datagrams::flow::{QueuedDatagram, FQ_QUANTUM};
use quic_datagrams::frame::Datagram;
use quic_datagrams::state::DatagramState;
use quic_datagrams::stats::DatagramTxStats;
use quic_datagrams::time::{Duration, Instant};

const NOW: Instant = Instant { nanos: 5_000_000_000 };

fn push(state: &mut DatagramState, bucket: u32, data: Vec<u8>) {
    let datagram = Datagram { data: Bytes::from(data) };
    state.enqueue(bucket, QueuedDatagram { queued_at: NOW, datagram });
}

/// The frame that the next service writes, if it writes one.
fn next_frame(state: &mut DatagramState, room: usize) -> Option<Vec<u8>> {
    let mut buf = Vec::new();
    let mut stats = DatagramTxStats::default();
    let written = state.write(&mut buf, room, NOW, None, &mut stats);
    if written {
        Some(buf)
    } else {
        None
    }
}

#[test]
fn backlogged_flows_never_drift_apart() {
    let mut state = DatagramState::default();
    for _ in 0..400 {
        push(&mut state, 1, vec![1; 1200]);
    }
    for _ in 0..1200 {
        push(&mut state, 2, vec![2; 400]);
    }
    let bound = 3 * FQ_QUANTUM + 2 * 1203;
    let (mut a, mut c) = (0i64, 0i64);
    for _ in 0..1000 {
        let frame = next_frame(&mut state, usize::MAX).unwrap();
        match *frame.last().unwrap() {
            1 => a += frame.len() as i64,
            _ => c += frame.len() as i64,
        }
        assert!((a - c).abs() < bound, "{a} and {c} bytes");
    }
    assert!(a > 10 * FQ_QUANTUM && c > 10 * FQ_QUANTUM);
}

#[test]
fn credit_is_what_was_given_less_what_was_sent() {
    let mut state = DatagramState::default();
    push(&mut state, 1, vec![1; 997]);
    push(&mut state, 1, vec![1; 1997]);
    push(&mut state, 1, vec![1; 11_997]);
    push(&mut state, 1, vec![1; 5]);
    assert_eq!(next_frame(&mut state, usize::MAX).unwrap().len(), 1000);
    assert_eq!(state.flows[&1].deficit, 14_000);
    next_frame(&mut state, usize::MAX);
    assert_eq!(state.flows[&1].deficit, 12_000);
    next_frame(&mut state, usize::MAX);
    assert_eq!(state.flows[&1].deficit, 0);
    // Out of credit: a new round comes before the next datagram.
    next_frame(&mut state, usize::MAX);
    assert_eq!(state.flows[&1].deficit, 15_000 - 7);
}

#[test]
fn new_flows_wait_for_new_flows_only() {
    let mut state = DatagramState::default();
    for _ in 0..100 {
        push(&mut state, 1, vec![1; 1000]);
        push(&mut state, 2, vec![2; 1000]);
    }
    // Past their first quantum, both standing queues are served round-robin.
    for _ in 0..40 {
        next_frame(&mut state, usize::MAX);
    }
    assert!(state.new_flows.is_empty());
    for _ in 0..50 {
        push(&mut state, 3, vec![3; 1000]);
    }
    push(&mut state, 4, vec![4; 10]);
    let mut ahead = 0;
    loop {
        let frame = next_frame(&mut state, usize::MAX).unwrap();
        match *frame.last().unwrap() {
            3 => ahead += frame.len() as i64,
            4 => break,
            tag => panic!("flow {tag} got ahead of the new ones"),
        }
    }
    assert_eq!(ahead, 15 * 1003);
    assert!(ahead <= FQ_QUANTUM + 1003);
}

#[test]
fn every_flow_is_delivered_in_order() {
    let mut state = DatagramState::default();
    for i in 0..60u8 {
        push(&mut state, 1, vec![i; 900]);
        push(&mut state, 2, vec![100 + i; 300]);
        if i % 7 == 0 {
            push(&mut state, 3, vec![200 + i / 7; 50]);
        }
    }
    let mut sent = [Vec::new(), Vec::new(), Vec::new()];
    while let Some(frame) = next_frame(&mut state, 1200) {
        let tag = *frame.last().unwrap();
        sent[usize::from(tag / 100)].push(tag);
    }
    assert_eq!(sent[0], (0..60).collect::<Vec<u8>>());
    assert_eq!(sent[1], (100..160).collect::<Vec<u8>>());
    assert_eq!(sent[2], (200..209).collect::<Vec<u8>>());
    assert!(state.flows.is_empty());
}

#[test]
fn a_service_writes_no_more_than_it_may() {
    let mut state = DatagramState::default();
    push(&mut state, 1, vec![9; 100]);
    let mut stats = DatagramTxStats::default();
    // A frame of 103 bytes.
    let mut buf = vec![0u8; 20];
    assert!(!state.write(&mut buf, 122, NOW, None, &mut stats));
    assert_eq!(buf, [0u8; 20]);
    assert!(state.write(&mut buf, 123, NOW, None, &mut stats));
    assert_eq!(buf.len(), 123);
    assert_eq!(state.outgoing_total, 0);
}

#[test]
fn pruned_queues_do_not_stall() {
    let mut state = DatagramState::default();
    for len in [1100, 500, 1300, 700, 1000] {
        push(&mut state, 1, vec![1; len]);
        push(&mut state, 2, vec![2; len + 200]);
    }
    state.drop_oversized(1000);
    let kept: Vec<usize> = state.flows[&1].queue.iter().map(|d| d.datagram.data.len()).collect();
    assert_eq!(kept, [500, 700, 1000]);
    let mut written = 0;
    while next_frame(&mut state, 1003).is_some() {
        written += 1;
    }
    assert_eq!(written, 5);
    assert!(state.flows.is_empty());
}

#[test]
fn an_oversized_head_stalls_what_is_not_pruned() {
    let mut state = DatagramState::default();
    push(&mut state, 1, vec![1; 1300]);
    push(&mut state, 1, vec![2; 10]);
    assert_eq!(next_frame(&mut state, 1003), None);
    assert!(!state.can_write(1003));
    state.drop_oversized(1000);
    assert_eq!(*next_frame(&mut state, 1003).unwrap().last().unwrap(), 2);
}

#[test]
fn waits_between_drops_only_shrink() {
    let interval = Duration::from_millis(100);
    let mut last = interval;
    for count in 1..2000 {
        let wait = CodelState::backoff(interval, count);
        assert!(wait <= last);
        last = wait;
    }
    assert_eq!(last, Duration::from_nanos(2_236_627));
}

#[test]
fn a_drop_needs_latency_above_target_all_along() {
    let config = DatagramAqmConfig::default();
    let mut codel = CodelState::default();
    let at = |ms: u64| NOW.after(Duration::from_millis(ms));
    let high = Duration::from_millis(20);
    assert!(!codel.should_drop(high, 10_000, at(0), &config));
    assert!(!codel.should_drop(high, 10_000, at(99), &config));
    // One good dequeue starts the interval over.
    assert!(!codel.should_drop(Duration::from_millis(14), 10_000, at(99), &config));
    assert!(!codel.should_drop(high, 10_000, at(100), &config));
    assert!(!codel.should_drop(high, 10_000, at(199), &config));
    assert!(codel.should_drop(high, 10_000, at(200), &config));
}

#[test]
fn a_sustained_sample_pulls_the_estimate_in() {
    let mut state = DatagramState::default();
    assert_eq!(state.update_bdp_ewma(1_000_000), 1_000_000);
    let mut share = 1_000_000f64 - 7.0;
    for _ in 0..200 {
        let estimate = state.update_bdp_ewma(0);
        share *= 7.0 / 8.0;
        assert!(estimate as f64 - 7.0 <= share + 1e-6);
    }
    assert_eq!(state.bdp_ewma, Some(7));
    // An estimate moves towards a sample and never past it.
    assert_eq!(state.update_bdp_ewma(u64::MAX), 7 + (u64::MAX - 7) / 8);
    assert_eq!(state.update_bdp_ewma(7), 7 + (u64::MAX - 7) / 8 - (u64::MAX - 7) / 8 / 8);
}

#[test]
fn free_space_displaces_nothing() {
    let mut conn = Connection {
        config: TransportConfig {
            datagram_receive_buffer_size: Some(1000),
            datagram_send_buffer_size: 2000,
            datagram_send_aqm: None,
            datagram_send_buffer_bdp: None,
        },
        path: PathData { current_mtu: 1500, bdp_estimate: None },
        peer_params: TransportParameters { max_datagram_frame_size: Some(65_535) },
        packet_overhead: 41,
        datagrams: DatagramState::default(),
        stats: ConnectionStats { datagram_tx: DatagramTxStats::default() },
    };
    for len in [700usize, 700, 600] {
        let mut datagrams = Datagrams { conn: &mut conn };
        assert!(datagrams.send_buffer_space() >= len);
        let data = Bytes::from(vec![1; len]);
        assert_eq!(datagrams.send_classified(data, true, NOW, DatagramClass::default()), Ok(()));
    }
    assert_eq!(Datagrams { conn: &mut conn }.send_buffer_space(), 0);
    assert_eq!(conn.datagrams.outgoing_total, 2000);
    assert_eq!(conn.stats.datagram_tx.dropped_overflow, 0);
}

#[test]
fn marks_do_not_move_a_flow() {
    let mut pkt = vec![0u8; 60];
    pkt[0] = 0x60;
    pkt[6] = 17;
    pkt[40..44].copy_from_slice(&[0x12, 0x34, 0x00, 0x35]);
    let plain = DatagramClass::of_inner_ip_packet(&pkt);
    pkt[0] = 0x6b;
    pkt[1] = 0xbf;
    let marked = DatagramClass::of_inner_ip_packet(&pkt);
    assert!(plain.flow.is_some());
    assert_eq!(marked.flow, plain.flow);
    assert_ne!(marked.ecn, plain.ecn);
    // The flow label, the length and what follows the ports do not count either.
    pkt[2] = 7;
    pkt[4] = 1;
    pkt[59] = 200;
    assert_eq!(DatagramClass::of_inner_ip_packet(&pkt), marked);
}

#[test]
fn the_first_dequeue_after_an_interval_is_dropped() {
    let config = DatagramAqmConfig::default();
    let mut codel = CodelState::default();
    let at = |ms: u64| NOW.after(Duration::from_millis(ms));
    let high = Duration::from_millis(15);
    for ms in [0, 7, 60, 99] {
        assert!(!codel.should_drop(high, 3001, at(ms), &config));
        assert!(!codel.dropping);
    }
    assert!(codel.should_drop(high, 3001, at(173), &config));
    assert!(codel.dropping);
    assert_eq!(codel.count, 1);
}

#[test]
fn calm_queues_lose_nothing() {
    let config = DatagramAqmConfig::default();
    let mut stats = DatagramTxStats::default();
    let mut state = DatagramState::default();
    for _ in 0..4 {
        push(&mut state, 1, vec![1; 1000]);
    }
    let at = |ms: u64| NOW.after(Duration::from_millis(ms));
    let mut buf = Vec::new();
    // Stale, with 4000 bytes queued: the grace period begins.
    assert!(state.write(&mut buf, usize::MAX, at(500), Some(&config), &mut stats));
    // However late, 3000 bytes and less are left alone.
    for _ in 0..3 {
        assert!(state.write(&mut buf, usize::MAX, at(9000), Some(&config), &mut stats));
    }
    // A deep queue of datagrams that have waited for less than the target.
    for _ in 0..64 {
        push(&mut state, 2, vec![2; 1000]);
    }
    while state.write(&mut buf, usize::MAX, at(14), Some(&config), &mut stats) {}
    assert!(state.is_empty());
    assert_eq!(stats, DatagramTxStats::default());
}

#[test]
fn writing_accounts_for_every_datagram() {
    let config = DatagramAqmConfig::default();
    let mut stats = DatagramTxStats::default();
    let mut state = DatagramState::default();
    for tag in 0..64 {
        push(&mut state, 1, vec![tag; 1000]);
    }
    let mut left = 64;
    for step in 0..20 {
        let mut buf = Vec::new();
        let before = stats.dropped_aqm;
        let now = NOW.after(Duration::from_millis(100 + 60 * step));
        assert!(state.write(&mut buf, usize::MAX, now, Some(&config), &mut stats));
        left -= 1 + (stats.dropped_aqm - before);
        assert_eq!(state.flows[&1].queue.len() as u64, left);
        // The last one gone is the one written.
        assert_eq!(*buf.last().unwrap() as u64, 63 - left);
        assert_eq!(state.outgoing_total as u64, 1000 * left);
    }
    assert!(stats.dropped_aqm > 0);
}
