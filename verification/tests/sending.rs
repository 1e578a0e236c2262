use bytes::Bytes;
use quic_datagrams::class::{DatagramClass, DatagramEcn, SHARED_BUCKET};
use quic_datagrams::config::{DatagramAqmConfig, DatagramBdpBufferConfig, TransportConfig};
use quic_datagrams::datagrams::{
    Connection, ConnectionStats, Datagrams, PathData, SendDatagramError, TransportParameters,
};
use quic_datagrams::frame::Datagram;
use quic_datagrams::state::DatagramState;
use quic_datagrams::stats::DatagramTxStats;
use quic_datagrams::time::Instant;

const NOW: Instant = Instant { nanos: 1_000_000_000 };

fn connection(send_buffer: usize) -> Connection {
    Connection {
        config: TransportConfig {
            datagram_receive_buffer_size: Some(65_536),
            datagram_send_buffer_size: send_buffer,
            datagram_send_aqm: Some(DatagramAqmConfig::default()),
            datagram_send_buffer_bdp: None,
        },
        path: PathData { current_mtu: 1200, bdp_estimate: None },
        peer_params: TransportParameters { max_datagram_frame_size: Some(65_535) },
        packet_overhead: 41,
        datagrams: DatagramState::default(),
        stats: ConnectionStats { datagram_tx: DatagramTxStats::default() },
    }
}

fn payload(tag: u8, len: usize) -> Bytes {
    Bytes::from(vec![tag; len])
}

fn class(flow: u64) -> DatagramClass {
    DatagramClass { flow: Some(flow), ecn: None }
}

#[test]
fn a_sent_datagram_is_the_next_one_written() {
    let mut conn = connection(1000);
    let sent = Datagrams { conn: &mut conn }.send(payload(7, 20), false, NOW);
    assert_eq!(sent, Ok(()));
    let mut buf = Vec::new();
    let aqm = conn.config.datagram_send_aqm;
    assert!(conn.datagrams.write(&mut buf, 1200, NOW, aqm.as_ref(), &mut conn.stats.datagram_tx));
    assert_eq!(buf[..2], [0x31, 20]);
    assert_eq!(buf[2..], [7u8; 20]);
}

#[test]
fn max_size_is_what_path_and_peer_allow() {
    let mut conn = connection(1000);
    assert_eq!(Datagrams { conn: &mut conn }.max_size(), Some(1150));
    conn.peer_params.max_datagram_frame_size = Some(109);
    assert_eq!(Datagrams { conn: &mut conn }.max_size(), Some(100));
    conn.peer_params.max_datagram_frame_size = Some(5);
    assert_eq!(Datagrams { conn: &mut conn }.max_size(), Some(0));
    conn.peer_params.max_datagram_frame_size = None;
    assert_eq!(Datagrams { conn: &mut conn }.max_size(), None);
    conn.peer_params.max_datagram_frame_size = Some(109);
    conn.config.datagram_receive_buffer_size = None;
    assert_eq!(Datagrams { conn: &mut conn }.max_size(), None);
}

#[test]
fn each_refusal_has_its_error() {
    let mut conn = connection(1000);
    let refuse = |conn: &mut Connection, len: usize, drop: bool| {
        Datagrams { conn }.send(payload(1, len), drop, NOW).unwrap_err()
    };
    assert_eq!(refuse(&mut conn, 1151, true), SendDatagramError::TooLarge);
    assert_eq!(refuse(&mut conn, 1001, false), SendDatagramError::Blocked(payload(1, 1001)));
    assert!(conn.datagrams.send_blocked);
    conn.peer_params.max_datagram_frame_size = None;
    assert_eq!(refuse(&mut conn, 1, true), SendDatagramError::UnsupportedByPeer);
    conn.config.datagram_receive_buffer_size = None;
    assert_eq!(refuse(&mut conn, 1, true), SendDatagramError::Disabled);
    assert!(conn.datagrams.is_empty());
}

#[test]
fn errors_say_what_went_wrong_and_can_be_copied() {
    let blocked = SendDatagramError::Blocked(payload(3, 4));
    assert_eq!(blocked.clone(), blocked);
    assert_eq!(blocked.message(), "datagram send blocked");
    assert_eq!(SendDatagramError::TooLarge.clone().message(), "datagram too large");
    assert_eq!(SendDatagramError::Disabled.clone().message(), "datagram support disabled");
    assert_eq!(
        SendDatagramError::UnsupportedByPeer.clone().message(),
        "datagrams not supported by peer"
    );
}

#[test]
fn a_full_buffer_blocks_or_evicts() {
    let mut conn = connection(1000);
    assert_eq!(Datagrams { conn: &mut conn }.send(payload(1, 600), false, NOW), Ok(()));
    assert_eq!(Datagrams { conn: &mut conn }.send_buffer_space(), 400);
    assert_eq!(Datagrams { conn: &mut conn }.send(payload(2, 400), false, NOW), Ok(()));
    assert_eq!(Datagrams { conn: &mut conn }.send_buffer_space(), 0);
    assert_eq!(
        Datagrams { conn: &mut conn }.send(payload(3, 1), false, NOW),
        Err(SendDatagramError::Blocked(payload(3, 1)))
    );
    // The buffer may exceed its limit by the last datagram; the next one evicts.
    assert_eq!(Datagrams { conn: &mut conn }.send(payload(4, 500), true, NOW), Ok(()));
    assert_eq!(conn.datagrams.outgoing_total, 1500);
    assert_eq!(conn.stats.datagram_tx.dropped_overflow, 0);
    assert_eq!(Datagrams { conn: &mut conn }.send(payload(5, 1), true, NOW), Ok(()));
    assert_eq!(conn.datagrams.outgoing_total, 901);
    assert_eq!(conn.stats.datagram_tx.dropped_overflow, 1);
    let mut buf = Vec::new();
    assert!(conn.datagrams.write(&mut buf, 1200, NOW, None, &mut conn.stats.datagram_tx));
    assert_eq!(*buf.last().unwrap(), 2);
}

#[test]
fn overflow_spares_the_sparse_flow() {
    let mut conn = connection(1000);
    let mut send = |tag: u8, len: usize, flow: u64| {
        Datagrams { conn: &mut conn }
            .send_classified(payload(tag, len), true, NOW, class(flow))
            .unwrap()
    };
    send(1, 100, 1);
    send(2, 900, 2);
    send(2, 900, 2);
    send(3, 1, 3);
    assert_eq!(conn.stats.datagram_tx.dropped_overflow, 1);
    assert_eq!(conn.datagrams.flows.len(), 3);
    assert_eq!(conn.datagrams.outgoing_total, 1001);
    assert_eq!(conn.datagrams.flows[&3].bytes, 900);
}

#[test]
fn classification_is_counted_and_keys_the_flow() {
    let mut conn = connection(1000);
    let ce = DatagramClass { flow: Some(5), ecn: Some(DatagramEcn::Ce) };
    assert_eq!(Datagrams { conn: &mut conn }.send_classified(payload(1, 1), true, NOW, ce), Ok(()));
    assert_eq!(Datagrams { conn: &mut conn }.send(payload(2, 1), true, NOW), Ok(()));
    assert_eq!(conn.stats.datagram_tx.ecn_ce, 1);
    let mut buckets: Vec<u32> = conn.datagrams.flows.keys().copied().collect();
    buckets.sort();
    assert_eq!(buckets, [0, 6]);
}

#[test]
fn the_send_buffer_follows_the_path() {
    let mut conn = connection(10_000);
    let mut bdp = DatagramBdpBufferConfig::default();
    bdp.floor(100);
    conn.config.datagram_send_buffer_bdp = Some(bdp);
    // No estimate yet: the configured size.
    assert_eq!(Datagrams { conn: &mut conn }.send_buffer_space(), 10_000);
    assert_eq!(Datagrams { conn: &mut conn }.send(payload(1, 900), false, NOW), Ok(()));
    assert_eq!(conn.datagrams.bdp_ewma, None);
    // 4 x 250 bytes.
    conn.path.bdp_estimate = Some(250);
    assert_eq!(Datagrams { conn: &mut conn }.send(payload(2, 100), false, NOW), Ok(()));
    assert_eq!(conn.datagrams.bdp_ewma, Some(250));
    assert_eq!(Datagrams { conn: &mut conn }.send_buffer_space(), 0);
    assert_eq!(
        Datagrams { conn: &mut conn }.send(payload(3, 1), false, NOW),
        Err(SendDatagramError::Blocked(payload(3, 1)))
    );
}

#[test]
fn space_that_a_shrinking_estimate_takes_back() {
    let mut conn = connection(10_000);
    let mut bdp = DatagramBdpBufferConfig::default();
    bdp.floor(100);
    conn.config.datagram_send_buffer_bdp = Some(bdp);
    conn.path.bdp_estimate = Some(250);
    assert_eq!(Datagrams { conn: &mut conn }.send(payload(1, 950), false, NOW), Ok(()));
    assert_eq!(Datagrams { conn: &mut conn }.send_buffer_space(), 50);
    // The fresh sample brings the limit to 4 x 219 bytes before the send is judged.
    conn.path.bdp_estimate = Some(0);
    assert_eq!(Datagrams { conn: &mut conn }.send(payload(2, 50), true, NOW), Ok(()));
    assert_eq!(conn.datagrams.bdp_ewma, Some(219));
    assert_eq!(conn.stats.datagram_tx.dropped_overflow, 1);
}

#[test]
fn free_space_foresees_the_estimate() {
    let mut conn = connection(16_000);
    let mut bdp = DatagramBdpBufferConfig::default();
    bdp.floor(100);
    conn.config.datagram_send_buffer_bdp = Some(bdp);
    let queue = |conn: &mut Connection, len: usize| {
        Datagrams { conn }.send(payload(1, len), true, NOW).unwrap()
    };
    queue(&mut conn, 1000);
    queue(&mut conn, 1000);
    assert_eq!(Datagrams { conn: &mut conn }.send_buffer_space(), 14_000);
    // The first estimate will bring the limit to 4 x 62 bytes, below what is queued.
    conn.path.bdp_estimate = Some(62);
    assert_eq!(Datagrams { conn: &mut conn }.send_buffer_space(), 0);
    assert_eq!(conn.datagrams.bdp_ewma, None);
    // 4 x 600 bytes take in what is queued, so nothing will be dropped.
    conn.path.bdp_estimate = Some(600);
    assert_eq!(Datagrams { conn: &mut conn }.send_buffer_space(), 14_000);
    queue(&mut conn, 400);
    assert_eq!(conn.stats.datagram_tx.dropped_overflow, 0);
    assert_eq!(conn.datagrams.outgoing_total, 2400);
    // A growing estimate adds no space before it is taken in.
    conn.path.bdp_estimate = Some(6000);
    assert_eq!(Datagrams { conn: &mut conn }.send_buffer_space(), 0);
    // Nor does a shrinking one take any, as long as what is queued stays within
    // the limit to come: 4 x 525 bytes.
    conn.path.bdp_estimate = Some(0);
    let mut buf = Vec::new();
    assert!(conn.datagrams.write(&mut buf, 1200, NOW, None, &mut conn.stats.datagram_tx));
    assert_eq!(Datagrams { conn: &mut conn }.send_buffer_space(), 2400 - 1400);
    queue(&mut conn, 1000);
    assert_eq!(conn.datagrams.bdp_ewma, Some(525));
    assert_eq!(conn.stats.datagram_tx.dropped_overflow, 0);
}

#[test]
fn an_empty_buffer_has_its_whole_limit_free() {
    let mut conn = connection(16 * 1024 * 1024);
    conn.config.datagram_send_buffer_bdp = Some(DatagramBdpBufferConfig::default());
    conn.path.bdp_estimate = Some(62_000);
    assert_eq!(Datagrams { conn: &mut conn }.send_buffer_space(), 16_777_216);
    assert_eq!(Datagrams { conn: &mut conn }.send(payload(1, 1000), true, NOW), Ok(()));
    assert_eq!(Datagrams { conn: &mut conn }.send_buffer_space(), 1_048_576 - 1000);
}

#[test]
fn an_unclassified_datagram_is_shared_and_not_counted() {
    let mut conn = connection(1000);
    assert_eq!(Datagrams { conn: &mut conn }.send(payload(1, 5), false, NOW), Ok(()));
    assert_eq!(conn.datagrams.flows.keys().copied().collect::<Vec<u32>>(), [SHARED_BUCKET]);
    assert_eq!(conn.stats.datagram_tx, DatagramTxStats::default());
}

#[test]
fn recv_hands_out_what_was_received() {
    let mut conn = connection(1000);
    let window = conn.config.datagram_receive_buffer_size;
    let arrived = conn.datagrams.received(Datagram { data: payload(8, 3) }, &window);
    assert_eq!(arrived, Ok(true));
    assert_eq!(Datagrams { conn: &mut conn }.recv(), Some(payload(8, 3)));
    assert_eq!(Datagrams { conn: &mut conn }.recv(), None);
}
