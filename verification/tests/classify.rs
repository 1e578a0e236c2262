use quic_datagrams::class::{bucket_for, DatagramClass, DatagramEcn, SHARED_BUCKET};
use quic_datagrams::config::DatagramAqmConfig;
use quic_datagrams::stats::DatagramTxStats;

fn aqm() -> DatagramAqmConfig {
    DatagramAqmConfig::default()
}

/// Minimal IPv4 packet: 20-byte header + 4 port bytes.
fn ipv4_pkt(tos: u8, proto: u8) -> Vec<u8> {
    let mut pkt = vec![0u8; 24];
    pkt[0] = 0x45;
    pkt[1] = tos;
    pkt[9] = proto;
    pkt[12..16].copy_from_slice(&[10, 0, 0, 1]);
    pkt[16..20].copy_from_slice(&[10, 0, 0, 2]);
    pkt[20..22].copy_from_slice(&1234u16.to_be_bytes());
    pkt[22..24].copy_from_slice(&443u16.to_be_bytes());
    pkt
}

/// Minimal IPv6 packet: 40-byte header + 4 port bytes.
fn ipv6_pkt(traffic_class: u8, next_header: u8) -> Vec<u8> {
    let mut pkt = vec![0u8; 44];
    pkt[0] = 0x60 | (traffic_class >> 4);
    pkt[1] = (traffic_class & 0x0f) << 4;
    pkt[6] = next_header;
    pkt[8..24].copy_from_slice(&[0xfd; 16]);
    pkt[24..40].copy_from_slice(&[0xfe; 16]);
    pkt[40..42].copy_from_slice(&1234u16.to_be_bytes());
    pkt[42..44].copy_from_slice(&80u16.to_be_bytes());
    pkt
}

/// The 64-bit FNV-1a hash, straight from its definition.
fn fnv(bytes: &[u8]) -> u64 {
    let mut h = 0xcbf2_9ce4_8422_2325u64;
    for &b in bytes {
        h = (h ^ u64::from(b)).wrapping_mul(0x100_0000_01b3);
    }
    h
}

#[test]
fn classify_ipv4_ecn_codepoints() {
    // RFC 3168: 0b00 Not-ECT, 0b01 ECT(1), 0b10 ECT(0), 0b11 CE. The
    // DSCP bits above them must not leak into the classification.
    for (tos, expected) in [
        (0b0000_0000, DatagramEcn::NotEct),
        (0b0000_0001, DatagramEcn::Ect1),
        (0b0000_0010, DatagramEcn::Ect0),
        (0b0000_0011, DatagramEcn::Ce),
        (0b1010_1000, DatagramEcn::NotEct),
        (0b1010_1010, DatagramEcn::Ect0),
    ] {
        let class = DatagramClass::of_inner_ip_packet(&ipv4_pkt(tos, 6));
        assert_eq!(class.ecn, Some(expected), "tos {tos:#010b}");
    }
}

#[test]
fn classify_ipv6_ecn_spans_the_nibble_boundary() {
    // The IPv6 traffic class straddles bytes 0 and 1; the ECN bits are
    // its two low bits, which live in byte 1's high nibble.
    for (tc, expected) in [
        (0b0000_0000, DatagramEcn::NotEct),
        (0b0000_0001, DatagramEcn::Ect1),
        (0b0000_0010, DatagramEcn::Ect0),
        (0b0000_0011, DatagramEcn::Ce),
        (0b1011_1011, DatagramEcn::Ce),
    ] {
        let class = DatagramClass::of_inner_ip_packet(&ipv6_pkt(tc, 17));
        assert_eq!(class.ecn, Some(expected), "traffic class {tc:#010b}");
    }
}

#[test]
fn classify_non_ip_payload_is_unclassified() {
    // Cover datagrams (0xFF fill), sealed frames, and truncated headers
    // carry no inner IP header: they must count in no ECN bucket and land
    // in the shared flow bucket.
    for payload in [&[][..], &[0xff; 64][..], &[0x45; 12][..], &[0x60; 39][..]] {
        assert_eq!(
            DatagramClass::of_inner_ip_packet(payload),
            DatagramClass::default()
        );
    }
}

#[test]
fn classify_flow_key_for_tcp_udp_only() {
    let tcp = DatagramClass::of_inner_ip_packet(&ipv4_pkt(0, 6));
    let udp = DatagramClass::of_inner_ip_packet(&ipv4_pkt(0, 17));
    let icmp = DatagramClass::of_inner_ip_packet(&ipv4_pkt(0, 1));
    assert!(tcp.flow.is_some());
    assert!(udp.flow.is_some());
    assert_ne!(tcp.flow, udp.flow, "protocol is part of the 5-tuple");
    assert!(icmp.flow.is_none(), "ICMP has no ports: shared bucket");
    assert_eq!(icmp.ecn, Some(DatagramEcn::NotEct), "ECN still classified");

    let v6 = DatagramClass::of_inner_ip_packet(&ipv6_pkt(0, 6));
    assert!(v6.flow.is_some());
    assert_ne!(v6.flow, tcp.flow);
}

#[test]
fn classify_flow_key_is_stable_per_flow() {
    let a = DatagramClass::of_inner_ip_packet(&ipv4_pkt(0, 6));
    let mut longer = ipv4_pkt(0, 6);
    longer.extend_from_slice(&[0xab; 100]);
    // Payload bytes past the 5-tuple must not change the key; the ECN
    // bits must not either (a CE remark mid-flow keeps the flow sticky).
    let b = DatagramClass::of_inner_ip_packet(&longer);
    let c = DatagramClass::of_inner_ip_packet(&ipv4_pkt(0b11, 6));
    assert_eq!(a.flow, b.flow);
    assert_eq!(a.flow, c.flow);
}

#[test]
fn classify_ipv4_non_first_fragment_has_no_flow_key() {
    // A non-first fragment carries payload bytes where the ports would
    // be; hashing them would scatter one flow across buckets.
    let mut pkt = ipv4_pkt(0, 6);
    pkt[6] = 0x00;
    pkt[7] = 0x08; // fragment offset 8
    let class = DatagramClass::of_inner_ip_packet(&pkt);
    assert!(class.flow.is_none());
    assert_eq!(class.ecn, Some(DatagramEcn::NotEct));
}

#[test]
fn flow_key_hashes_protocol_addresses_and_ports() {
    let v4 = ipv4_pkt(0, 17);
    let mut tuple = vec![17u8];
    tuple.extend_from_slice(&v4[12..24]);
    assert_eq!(DatagramClass::of_inner_ip_packet(&v4).flow, Some(fnv(&tuple)));

    // With options the ports lie behind them.
    let mut options = vec![0x47u8, 0, 0, 0, 0, 0, 0x40, 0, 0, 6, 0, 0];
    options.extend_from_slice(&[10, 0, 0, 1, 10, 0, 0, 2]);
    options.extend_from_slice(&[9; 8]);
    options.extend_from_slice(&[1, 2, 3, 4]);
    let tuple = [6u8, 10, 0, 0, 1, 10, 0, 0, 2, 1, 2, 3, 4];
    assert_eq!(DatagramClass::of_inner_ip_packet(&options).flow, Some(fnv(&tuple)));
    options.pop();
    assert_eq!(DatagramClass::of_inner_ip_packet(&options).flow, None);

    let v6 = ipv6_pkt(0b1011_1011, 6);
    let mut tuple = vec![6u8];
    tuple.extend_from_slice(&v6[8..44]);
    assert_eq!(DatagramClass::of_inner_ip_packet(&v6).flow, Some(fnv(&tuple)));
}

#[test]
fn headers_without_ports_have_no_flow_key() {
    // A header length below the minimum, a truncated port field, an IPv6
    // extension header: the codepoint is read, the ports are not.
    let mut short_ihl = ipv4_pkt(0b10, 6);
    short_ihl[0] = 0x44;
    let truncated = ipv4_pkt(0b10, 6)[..23].to_vec();
    let extension = ipv6_pkt(0b10, 0);
    let truncated6 = ipv6_pkt(0b10, 6)[..43].to_vec();
    for pkt in [short_ihl, truncated, extension, truncated6] {
        let class = DatagramClass::of_inner_ip_packet(&pkt);
        assert_eq!(class.flow, None);
        assert_eq!(class.ecn, Some(DatagramEcn::Ect0));
    }
    // Other versions are not IP.
    let mut other = ipv4_pkt(0b10, 6);
    other[0] = 0x55;
    assert_eq!(DatagramClass::of_inner_ip_packet(&other), DatagramClass::default());
}

#[test]
fn record_ecn_counts_classified_only() {
    let mut stats = DatagramTxStats::default();
    stats.record_ecn(None);
    stats.record_ecn(Some(DatagramEcn::NotEct));
    stats.record_ecn(Some(DatagramEcn::Ect0));
    stats.record_ecn(Some(DatagramEcn::Ect0));
    stats.record_ecn(Some(DatagramEcn::Ect1));
    stats.record_ecn(Some(DatagramEcn::Ce));
    assert_eq!(stats.ecn_not_ect, 1);
    assert_eq!(stats.ecn_ect0, 2);
    assert_eq!(stats.ecn_ect1, 1);
    assert_eq!(stats.ecn_ce, 1);
    assert_eq!(
        stats.ecn_not_ect + stats.ecn_ect0 + stats.ecn_ect1 + stats.ecn_ce,
        5,
        "unclassified datagrams must not be counted anywhere"
    );
}

#[test]
fn bucket_for_reserves_the_shared_bucket() {
    let config = aqm();
    // Classified flows never land on the shared bucket, whatever the key.
    for f in 0..2048u64 {
        assert_ne!(bucket_for(Some(f), Some(&config)), SHARED_BUCKET);
    }
    // Unclassified always does, as does everything without AQM or with
    // per-flow queueing collapsed to one queue.
    assert_eq!(bucket_for(None, Some(&config)), SHARED_BUCKET);
    assert_eq!(bucket_for(Some(42), None), SHARED_BUCKET);
    let mut single = aqm();
    single.flow_queues(1);
    assert_eq!(bucket_for(Some(42), Some(&single)), SHARED_BUCKET);
    let mut zero = aqm();
    zero.flow_queues(0);
    assert_eq!(
        bucket_for(Some(42), Some(&zero)),
        SHARED_BUCKET,
        "flow_queues(0) must clamp to the single-queue fallback"
    );
}

#[test]
fn buckets_spread_over_the_flow_queues() {
    let config = aqm();
    assert_eq!(bucket_for(Some(0), Some(&config)), 1);
    assert_eq!(bucket_for(Some(1023), Some(&config)), 1024);
    assert_eq!(bucket_for(Some(1024), Some(&config)), 1);
    let mut most = aqm();
    most.flow_queues(u32::MAX);
    assert_eq!(bucket_for(Some(u64::from(u32::MAX) - 1), Some(&most)), u32::MAX);
}
