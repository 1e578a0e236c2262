//! Classification of the traffic that datagrams carry.
use vstd::prelude::*;

use crate::config::DatagramAqmConfig;

verus! {

/// ECN codepoint carried by a tunnelled inner IP packet
///
/// This classifies the traffic a tunnel is about to seal into datagrams, not the
/// outer UDP socket, so the Not-ECT case is first-class (it is the
/// distribution's denominator).
#[derive(Debug, Clone, Copy, PartialEq, Eq)]
pub enum DatagramEcn {
    /// Not ECN-capable transport (`0b00`)
    NotEct,
    /// ECN-capable transport, ECT(0) (`0b10`)
    Ect0,
    /// ECN-capable transport, ECT(1) (`0b01`)
    Ect1,
    /// Congestion experienced (`0b11`)
    Ce,
}

/// The codepoint in the two low-order bits of a TOS or traffic-class byte
pub open spec fn ecn_of(bits: int) -> DatagramEcn {
    if bits % 4 == 1 {
        DatagramEcn::Ect1
    } else if bits % 4 == 2 {
        DatagramEcn::Ect0
    } else if bits % 4 == 3 {
        DatagramEcn::Ce
    } else {
        DatagramEcn::NotEct
    }
}

impl DatagramEcn {
    /// Read the codepoint from the two low-order bits, whatever the others are
    pub fn from_bits(bits: u8) -> (ecn: Self)
        ensures
            ecn == ecn_of(bits as int),
            ecn is NotEct <==> bits % 4 == 0b00,
            ecn is Ect1 <==> bits % 4 == 0b01,
            ecn is Ect0 <==> bits % 4 == 0b10,
            ecn is Ce <==> bits % 4 == 0b11,
    {
        assert(bits & 0b11 == bits % 4) by (bit_vector);
        match bits & 0b11 {
            0b01 => DatagramEcn::Ect1,
            0b10 => DatagramEcn::Ect0,
            0b11 => DatagramEcn::Ce,
            _ => DatagramEcn::NotEct,
        }
    }
}

/// Caller-supplied classification of an application datagram
///
/// A tunnel encrypts its payload before handing it to QUIC, so the inner IP
/// header is unreadable at this layer; the caller classifies while it still
/// holds the plaintext (see [`Self::of_inner_ip_packet`]) and passes the
/// result along. `Default` is fully unclassified: no ECN accounting and the
/// shared catch-all flow bucket.
#[derive(Debug, Clone, Copy, PartialEq, Eq)]
pub struct DatagramClass {
    /// Stable flow key (e.g. a 5-tuple hash) for per-flow queueing
    pub flow: Option<u64>,
    /// ECN codepoint of the inner packet's IP header
    pub ecn: Option<DatagramEcn>,
}

impl Default for DatagramClass {
    /// Unclassified
    fn default() -> (class: Self)
        ensures
            class == unclassified(),
            class.flow is None,
            class.ecn is None,
    {
        DatagramClass { flow: None, ecn: None }
    }
}

/// The class of a datagram that nothing is known of
pub open spec fn unclassified() -> DatagramClass {
    DatagramClass { flow: None, ecn: None }
}

/// Initial value of the FNV-1a hash
pub const FNV_OFFSET: u64 = 0xcbf2_9ce4_8422_2325;

/// Multiplier of the FNV-1a hash
pub const FNV_PRIME: u64 = 0x100_0000_01b3;

/// One round of the FNV-1a hash
pub open spec fn fnv_round(h: u64, b: u8) -> u64 {
    (h ^ (b as u64)).wrapping_mul(FNV_PRIME)
}

/// The 64-bit FNV-1a hash, continued from `h` over `s`
pub open spec fn fnv1a_from(h: u64, s: Seq<u8>) -> u64
    decreases s.len(),
{
    if s.len() == 0 {
        h
    } else {
        fnv_round(fnv1a_from(h, s.drop_last()), s.last())
    }
}

/// The 64-bit FNV-1a hash
pub open spec fn fnv1a(s: Seq<u8>) -> u64 {
    fnv1a_from(FNV_OFFSET, s)
}

/// Whether a protocol number names a protocol with ports: TCP or UDP
pub open spec fn has_ports(proto: u8) -> bool {
    proto == 6 || proto == 17
}

/// Length of an IPv4 header in bytes, by its first byte
pub open spec fn ipv4_header_len(pkt: Seq<u8>) -> int {
    pkt[0] % 16 * 4
}

/// Fragment offset of an IPv4 packet, in units of eight bytes
pub open spec fn ipv4_fragment_offset(pkt: Seq<u8>) -> int {
    pkt[6] % 32 * 256 + pkt[7]
}

/// Traffic class of an IPv6 packet
pub open spec fn ipv6_traffic_class(pkt: Seq<u8>) -> int {
    pkt[0] % 16 * 16 + pkt[1] / 16
}

/// The bytes of an IPv4 packet that identify its flow: protocol, addresses and
/// ports. Only a first fragment that reaches to the ports has them.
pub open spec fn ipv4_tuple(pkt: Seq<u8>) -> Option<Seq<u8>> {
    let ihl = ipv4_header_len(pkt);
    if has_ports(pkt[9]) && ipv4_fragment_offset(pkt) == 0 && ihl >= 20 && pkt.len() >= ihl + 4 {
        Some(seq![pkt[9]] + pkt.subrange(12, 20) + pkt.subrange(ihl, ihl + 4))
    } else {
        None
    }
}

/// The bytes of an IPv6 packet that identify its flow: protocol, addresses and
/// ports. Only a packet without extension headers that reaches to the ports
/// has them.
pub open spec fn ipv6_tuple(pkt: Seq<u8>) -> Option<Seq<u8>> {
    if has_ports(pkt[6]) && pkt.len() >= 44 {
        Some(seq![pkt[6]] + pkt.subrange(8, 40) + pkt.subrange(40, 44))
    } else {
        None
    }
}

/// The flow key made of identifying bytes
pub open spec fn flow_key(tuple: Option<Seq<u8>>) -> Option<u64> {
    match tuple {
        Some(s) => Some(fnv1a(s)),
        None => None,
    }
}

/// Whether `pkt` is an IPv4 packet that holds all of the header's fixed part
pub open spec fn is_ipv4(pkt: Seq<u8>) -> bool {
    pkt.len() >= 20 && pkt[0] / 16 == 4
}

/// Whether `pkt` begins with a whole IPv6 header
pub open spec fn is_ipv6(pkt: Seq<u8>) -> bool {
    pkt.len() >= 40 && pkt[0] / 16 == 6
}

/// The class of a plaintext packet
pub open spec fn class_of(pkt: Seq<u8>) -> DatagramClass {
    if is_ipv4(pkt) {
        DatagramClass { flow: flow_key(ipv4_tuple(pkt)), ecn: Some(ecn_of(pkt[1] as int)) }
    } else if is_ipv6(pkt) {
        DatagramClass {
            flow: flow_key(ipv6_tuple(pkt)),
            ecn: Some(ecn_of(ipv6_traffic_class(pkt))),
        }
    } else {
        unclassified()
    }
}

proof fn lemma_fnv1a_concat(h: u64, s: Seq<u8>, t: Seq<u8>)
    ensures
        fnv1a_from(h, s + t) == fnv1a_from(fnv1a_from(h, s), t),
    decreases t.len(),
{
    if t.len() == 0 {
        assert(s + t =~= s);
    } else {
        assert((s + t).drop_last() =~= s + t.drop_last());
        lemma_fnv1a_concat(h, s, t.drop_last());
    }
}

/// Continue the hash `h` over `pkt[from..to]`
fn fnv_extend(h: u64, pkt: &[u8], from: usize, to: usize) -> (next: u64)
    requires
        from <= to <= pkt@.len(),
    ensures
        next == fnv1a_from(h, pkt@.subrange(from as int, to as int)),
{
    let mut next: u64 = h;
    let mut i: usize = from;
    while i < to
        invariant
            from <= i <= to <= pkt@.len(),
            next == fnv1a_from(h, pkt@.subrange(from as int, i as int)),
        decreases to - i,
    {
        assert(pkt@.subrange(from as int, i + 1).drop_last() =~= pkt@.subrange(
            from as int,
            i as int,
        ));
        next = (next ^ (pkt[i] as u64)).wrapping_mul(FNV_PRIME);
        i = i + 1;
    }
    next
}

/// The FNV-1a hash of `pkt[proto]`, `pkt[from..to]` and the four bytes at `ports`
fn fnv_tuple(pkt: &[u8], proto: usize, from: usize, to: usize, ports: usize) -> (key: u64)
    requires
        proto < pkt@.len(),
        from <= to <= pkt@.len(),
        ports + 4 <= pkt@.len() <= usize::MAX,
    ensures
        key == fnv1a(
            seq![pkt@[proto as int]] + pkt@.subrange(from as int, to as int) + pkt@.subrange(
                ports as int,
                ports + 4,
            ),
        ),
{
    let first: u64 = fnv_extend(FNV_OFFSET, pkt, proto, proto + 1);
    let second: u64 = fnv_extend(first, pkt, from, to);
    let third: u64 = fnv_extend(second, pkt, ports, ports + 4);
    proof {
        let head = seq![pkt@[proto as int]];
        let addresses = pkt@.subrange(from as int, to as int);
        assert(pkt@.subrange(proto as int, proto + 1) =~= head);
        lemma_fnv1a_concat(FNV_OFFSET, head, addresses);
        lemma_fnv1a_concat(FNV_OFFSET, head + addresses, pkt@.subrange(ports as int, ports + 4));
    }
    third
}

impl DatagramClass {
    /// Classify a plaintext IP packet: the ECN codepoint from the IPv4 TOS /
    /// IPv6 traffic-class field, and a flow key from an FNV-1a hash of the
    /// TCP/UDP 5-tuple.
    ///
    /// The ECN codepoint is read for any well-formed IPv4/IPv6 header; the
    /// flow key only for first-fragment TCP/UDP packets with readable ports
    /// (other protocols and IPv6 extension headers fall back to `None`, the
    /// shared bucket). Non-IP payloads yield the unclassified default.
    #[must_use]
    pub fn of_inner_ip_packet(pkt: &[u8]) -> (class: Self)
        ensures
            class == class_of(pkt@),
    {
        if pkt.len() == 0 {
            return DatagramClass::default();
        }
        let first: u8 = pkt[0];
        assert(first >> 4 == first / 16) by (bit_vector);
        assert(first & 0x0f == first % 16) by (bit_vector);
        let version: u8 = first >> 4;
        if version == 4 && pkt.len() >= 20 {
            let ecn: Option<DatagramEcn> = Some(DatagramEcn::from_bits(pkt[1]));
            let ihl: usize = (first & 0x0f) as usize * 4;
            let proto: u8 = pkt[9];
            let (high, low): (u8, u8) = (pkt[6], pkt[7]);
            // Ports only exist in the first fragment (offset 0).
            let frag_offset: u16 = (((high & 0x1f) as u16) << 8) | (low as u16);
            assert((((high & 0x1f) as u16) << 8) | (low as u16) == (high % 32) * 256 + low)
                by (bit_vector);
            let flow: Option<u64> = if (proto == 6 || proto == 17) && frag_offset == 0 && ihl >= 20
                && pkt.len() >= ihl + 4 {
                Some(fnv_tuple(pkt, 9, 12, 20, ihl))
            } else {
                None
            };
            DatagramClass { flow, ecn }
        } else if version == 6 && pkt.len() >= 40 {
            let second: u8 = pkt[1];
            let tc: u8 = ((first & 0x0f) << 4) | (second >> 4);
            assert(((first & 0x0f) << 4) | (second >> 4) == (first % 16) * 16 + second / 16)
                by (bit_vector);
            let ecn: Option<DatagramEcn> = Some(DatagramEcn::from_bits(tc));
            let next: u8 = pkt[6];
            let flow: Option<u64> = if (next == 6 || next == 17) && pkt.len() >= 44 {
                Some(fnv_tuple(pkt, 6, 8, 40, 40))
            } else {
                None
            };
            DatagramClass { flow, ecn }
        } else {
            DatagramClass::default()
        }
    }
}

/// The catch-all bucket: unclassified datagrams, and every datagram when
/// per-flow queueing is off (no AQM, or `flow_queues <= 1`).
pub const SHARED_BUCKET: u32 = 0;

/// The bucket that a flow key maps to
pub open spec fn bucket_of(flow: Option<u64>, aqm: Option<DatagramAqmConfig>) -> u32 {
    match (flow, aqm) {
        (Some(f), Some(config)) => if config.flow_queues > 1 {
            (1 + f % (config.flow_queues as u64)) as u32
        } else {
            SHARED_BUCKET
        },
        _ => SHARED_BUCKET,
    }
}

/// Maps a caller-supplied flow key onto a queue bucket. Classified flows
/// spread over `1..=flow_queues`; [`SHARED_BUCKET`] stays reserved so cover
/// traffic and unclassifiable packets never collide with a hashed flow.
pub fn bucket_for(flow: Option<u64>, aqm: Option<&DatagramAqmConfig>) -> (bucket: u32)
    ensures
        bucket == bucket_of(
            flow,
            match aqm {
                Some(config) => Some(*config),
                None => None,
            },
        ),
        flow is Some && aqm is Some && aqm->0.flow_queues > 1 ==> bucket - 1 == flow->0 as int
            % aqm->0.flow_queues as int,
        flow is None || aqm is None || aqm->0.flow_queues <= 1 ==> bucket == 0,
{
    match (flow, aqm) {
        (Some(f), Some(config)) => if config.flow_queues > 1 {
            1 + (f % (config.flow_queues as u64)) as u32
        } else {
            SHARED_BUCKET
        },
        _ => SHARED_BUCKET,
    }
}

/// Exactly the packets with a whole IP header have a codepoint, and exactly the
/// TCP and UDP packets among them whose ports can be read, first fragments all,
/// have a flow key; anything else is unclassified.
pub proof fn law_what_is_classified(pkt: Seq<u8>)
    ensures
        class_of(pkt).ecn is Some <==> is_ipv4(pkt) || is_ipv6(pkt),
        class_of(pkt).flow is Some <==> {
            ||| {
                &&& is_ipv4(pkt)
                &&& has_ports(pkt[9])
                &&& ipv4_fragment_offset(pkt) == 0
                &&& 20 <= ipv4_header_len(pkt) <= pkt.len() - 4
            }
            ||| is_ipv6(pkt) && has_ports(pkt[6]) && pkt.len() >= 44
        },
        !is_ipv4(pkt) && !is_ipv6(pkt) ==> class_of(pkt) == unclassified(),
{
}

/// The packets of one flow share its key: IPv4 packets with the same protocol,
/// addresses and ports do, whatever else stands in them.
pub proof fn law_flow_key_is_stable(p: Seq<u8>, q: Seq<u8>)
    requires
        is_ipv4(p),
        is_ipv4(q),
        class_of(p).flow is Some,
        class_of(q).flow is Some,
        p[9] == q[9],
        p.subrange(12, 20) == q.subrange(12, 20),
        p.subrange(ipv4_header_len(p), ipv4_header_len(p) + 4) == q.subrange(
            ipv4_header_len(q),
            ipv4_header_len(q) + 4,
        ),
    ensures
        class_of(p).flow == class_of(q).flow,
{
}

/// The packets of one IPv6 flow share its key: those with the same protocol,
/// addresses and ports do, whatever else stands in them.
pub proof fn law_ipv6_flow_key_is_stable(p: Seq<u8>, q: Seq<u8>)
    requires
        is_ipv6(p),
        is_ipv6(q),
        class_of(p).flow is Some,
        class_of(q).flow is Some,
        p[6] == q[6],
        p.subrange(8, 40) == q.subrange(8, 40),
        p.subrange(40, 44) == q.subrange(40, 44),
    ensures
        class_of(p).flow == class_of(q).flow,
{
}

/// What follows the ports does not change a packet's class.
pub proof fn law_payload_does_not_change_the_class(pkt: Seq<u8>, more: Seq<u8>)
    requires
        class_of(pkt).flow is Some,
    ensures
        class_of(pkt + more) == class_of(pkt),
{
    let longer = pkt + more;
    if is_ipv4(pkt) {
        let ihl = ipv4_header_len(pkt);
        assert(longer.subrange(12, 20) =~= pkt.subrange(12, 20));
        assert(longer.subrange(ihl, ihl + 4) =~= pkt.subrange(ihl, ihl + 4));
    } else {
        assert(longer.subrange(8, 40) =~= pkt.subrange(8, 40));
        assert(longer.subrange(40, 44) =~= pkt.subrange(40, 44));
    }
}

/// Re-marking an IPv4 packet changes its codepoint, by the two low-order bits of
/// the mark alone, and not its flow.
pub proof fn law_ipv4_mark_keeps_the_flow(pkt: Seq<u8>, tos: u8)
    requires
        is_ipv4(pkt),
    ensures
        class_of(pkt.update(1, tos)).flow == class_of(pkt).flow,
        class_of(pkt.update(1, tos)).ecn == Some(ecn_of(tos as int % 4)),
{
    let marked = pkt.update(1, tos);
    let ihl = ipv4_header_len(pkt);
    assert(marked.subrange(12, 20) =~= pkt.subrange(12, 20));
    if ihl >= 20 && pkt.len() >= ihl + 4 {
        assert(marked.subrange(ihl, ihl + 4) =~= pkt.subrange(ihl, ihl + 4));
    }
}

/// Re-marking an IPv6 packet, whose traffic class lies across its first two
/// bytes, changes its codepoint, by the two low-order bits of the mark alone,
/// and not its flow.
pub proof fn law_ipv6_mark_keeps_the_flow(pkt: Seq<u8>, tc: u8, first: u8, second: u8)
    requires
        is_ipv6(pkt),
        first == 6 * 16 + tc / 16,
        second / 16 == tc % 16,
    ensures
        class_of(pkt.update(0, first).update(1, second)).flow == class_of(pkt).flow,
        class_of(pkt.update(0, first).update(1, second)).ecn == Some(ecn_of(tc as int % 4)),
{
    let marked = pkt.update(0, first).update(1, second);
    assert(marked.subrange(8, 40) =~= pkt.subrange(8, 40));
    if pkt.len() >= 44 {
        assert(marked.subrange(40, 44) =~= pkt.subrange(40, 44));
    }
}

/// A fragment that is not the first has a codepoint and no flow key.
pub proof fn law_later_fragments_have_no_flow(pkt: Seq<u8>)
    requires
        is_ipv4(pkt),
        ipv4_fragment_offset(pkt) != 0,
    ensures
        class_of(pkt).flow is None,
        class_of(pkt).ecn is Some,
{
}

/// Classified flows spread over the buckets from one to the number of queues and
/// never share one with unclassified traffic; without per-flow queueing there is
/// only the shared bucket.
pub proof fn law_shared_bucket_is_reserved(flow: Option<u64>, aqm: Option<DatagramAqmConfig>)
    ensures
        bucket_of(flow, aqm) == SHARED_BUCKET <==> flow is None || aqm is None
            || aqm->0.flow_queues <= 1,
        bucket_of(flow, aqm) != SHARED_BUCKET ==> 1 <= bucket_of(flow, aqm) <= aqm->0.flow_queues,
{
}

/// What identifies an IPv4 flow: the protocol, the two addresses, and the two
/// ports, which follow a header of four bytes for each unit of its length field
pub open spec fn ipv4_five_tuple(pkt: Seq<u8>) -> Seq<u8> {
    let ports = 4 * (pkt[0] as int % 16);
    seq![
        pkt[9],
        pkt[12],
        pkt[13],
        pkt[14],
        pkt[15],
        pkt[16],
        pkt[17],
        pkt[18],
        pkt[19],
        pkt[ports],
        pkt[ports + 1],
        pkt[ports + 2],
        pkt[ports + 3],
    ]
}

/// What identifies an IPv6 flow: the next header, and from byte 8 to byte 44 the
/// two addresses and the two ports
pub open spec fn ipv6_five_tuple(pkt: Seq<u8>) -> Seq<u8> {
    Seq::new(
        37,
        |i: int|
            if i == 0 {
                pkt[6]
            } else {
                pkt[7 + i]
            },
    )
}

/// An IPv4 packet's codepoint is the two low-order bits of its second byte. It has
/// a flow key exactly where it is TCP or UDP, no later fragment, and reaches to
/// the ports; the key is the hash of protocol, addresses and ports.
pub proof fn law_ipv4_class(pkt: Seq<u8>)
    requires
        pkt.len() >= 20,
        pkt[0] / 16 == 4,
    ensures
        class_of(pkt).ecn == Some(DatagramEcn::NotEct) <==> pkt[1] % 4 == 0b00,
        class_of(pkt).ecn == Some(DatagramEcn::Ect1) <==> pkt[1] % 4 == 0b01,
        class_of(pkt).ecn == Some(DatagramEcn::Ect0) <==> pkt[1] % 4 == 0b10,
        class_of(pkt).ecn == Some(DatagramEcn::Ce) <==> pkt[1] % 4 == 0b11,
        ({
            let ports = 4 * (pkt[0] as int % 16);
            let keyed = {
                &&& pkt[9] == 6 || pkt[9] == 17
                &&& pkt[6] % 32 == 0 && pkt[7] == 0
                &&& 20 <= ports <= pkt.len() - 4
            };
            class_of(pkt).flow == if keyed {
                Some(fnv1a(ipv4_five_tuple(pkt)))
            } else {
                None
            }
        }),
{
    let ports = 4 * (pkt[0] as int % 16);
    if 20 <= ports <= pkt.len() - 4 {
        assert(seq![pkt[9]] + pkt.subrange(12, 20) + pkt.subrange(ports, ports + 4)
            =~= ipv4_five_tuple(pkt));
    }
}

/// An IPv6 packet's codepoint is the two low-order bits of its second byte's upper
/// half. It has a flow key exactly where TCP or UDP follows the header at once and
/// it reaches to the ports; the key is the hash of protocol, addresses and ports.
pub proof fn law_ipv6_class(pkt: Seq<u8>)
    requires
        pkt.len() >= 40,
        pkt[0] / 16 == 6,
    ensures
        class_of(pkt).ecn == Some(DatagramEcn::NotEct) <==> pkt[1] / 16 % 4 == 0b00,
        class_of(pkt).ecn == Some(DatagramEcn::Ect1) <==> pkt[1] / 16 % 4 == 0b01,
        class_of(pkt).ecn == Some(DatagramEcn::Ect0) <==> pkt[1] / 16 % 4 == 0b10,
        class_of(pkt).ecn == Some(DatagramEcn::Ce) <==> pkt[1] / 16 % 4 == 0b11,
        class_of(pkt).flow == if (pkt[6] == 6 || pkt[6] == 17) && pkt.len() >= 44 {
            Some(fnv1a(ipv6_five_tuple(pkt)))
        } else {
            None
        },
{
    if pkt.len() >= 44 {
        assert(seq![pkt[6]] + pkt.subrange(8, 40) + pkt.subrange(40, 44) =~= ipv6_five_tuple(pkt));
    }
}

/// Anything that is not a whole IPv4 or IPv6 header has neither codepoint nor key.
pub proof fn law_no_ip_header_no_class(pkt: Seq<u8>)
    requires
        !(pkt.len() >= 20 && pkt[0] / 16 == 4),
        !(pkt.len() >= 40 && pkt[0] / 16 == 6),
    ensures
        class_of(pkt).ecn is None,
        class_of(pkt).flow is None,
{
}

/// The hash is FNV-1a with 64 bits: from the offset basis, each byte in turn is
/// mixed into the low-order bits and the whole multiplied by the prime.
pub proof fn law_hash_is_fnv1a(s: Seq<u8>, b: u8)
    ensures
        fnv1a(Seq::<u8>::empty()) == 0xcbf2_9ce4_8422_2325,
        fnv1a(s.push(b)) == (fnv1a(s) ^ (b as u64)) * 0x100_0000_01b3
            % 0x1_0000_0000_0000_0000,
{
    assert(s.push(b).drop_last() =~= s);
    let x = fnv1a(s) ^ (b as u64);
    assert(0 <= x as nat * FNV_PRIME as nat) by (nonlinear_arith);
}

/// Multiplying by the prime, which is odd, loses nothing modulo `2^64`.
proof fn lemma_prime_is_invertible(x: u64, y: u64)
    requires
        x.wrapping_mul(FNV_PRIME) == y.wrapping_mul(FNV_PRIME),
    ensures
        x == y,
{
    let base: int = 0x1_0000_0000_0000_0000;
    let prime: int = 0x100_0000_01b3;
    let inverse: int = 0xce96_5057_aff6_957b;
    let wraps: int = 887285111055;
    assert(prime * inverse == 1 + wraps * base);
    let (p, q) = (x * prime, y * prime);
    assert(p >= 0 && q >= 0) by (nonlinear_arith)
        requires
            p == x * prime,
            q == y * prime,
            prime > 0,
    ;
    vstd::arithmetic::div_mod::lemma_fundamental_div_mod(p, base);
    vstd::arithmetic::div_mod::lemma_fundamental_div_mod(q, base);
    let k = p / base - q / base;
    let z = x - y;
    assert(z * prime == base * k) by (nonlinear_arith)
        requires
            p == x * prime,
            q == y * prime,
            p - q == base * (p / base) - base * (q / base),
            k == p / base - q / base,
            z == x - y,
    ;
    let m = k * inverse - wraps * z;
    assert(z == base * m) by (nonlinear_arith)
        requires
            z * prime == base * k,
            prime * inverse == 1 + wraps * base,
            m == k * inverse - wraps * z,
    ;
    assert(-base < z < base);
}

proof fn lemma_round_is_injective(g: u64, h: u64, a: u8, b: u8)
    requires
        g != h && a == b || g == h && a != b,
    ensures
        fnv_round(g, a) != fnv_round(h, b),
{
    let (x, y) = (a as u64, b as u64);
    assert(g ^ x != h ^ y) by (bit_vector)
        requires
            g != h && x == y || g == h && x != y,
    ;
    if fnv_round(g, a) == fnv_round(h, b) {
        lemma_prime_is_invertible(g ^ x, h ^ y);
    }
}

/// The hash tells apart any two byte strings of one length that differ in one byte.
pub proof fn law_hash_tells_one_byte_apart(s: Seq<u8>, t: Seq<u8>, i: int)
    requires
        s.len() == t.len(),
        0 <= i < s.len(),
        s[i] != t[i],
        forall|j: int| 0 <= j < s.len() && j != i ==> s[j] == t[j],
    ensures
        fnv1a(s) != fnv1a(t),
    decreases s.len(),
{
    let (u, v) = (s.drop_last(), t.drop_last());
    if i == s.len() - 1 {
        assert(u =~= v);
        lemma_round_is_injective(fnv1a(u), fnv1a(v), s.last(), t.last());
    } else {
        law_hash_tells_one_byte_apart(u, v, i);
        lemma_round_is_injective(fnv1a(u), fnv1a(v), s.last(), t.last());
    }
}

/// Two IPv4 flows that differ in one byte of protocol, addresses and ports have
/// different keys; so have, for one, two neighbouring ports.
pub proof fn law_ipv4_flows_are_told_apart(p: Seq<u8>, q: Seq<u8>, i: int)
    requires
        p.len() >= 20 && p[0] / 16 == 4,
        q.len() >= 20 && q[0] / 16 == 4,
        class_of(p).flow is Some,
        class_of(q).flow is Some,
        0 <= i < 13,
        ipv4_five_tuple(p)[i] != ipv4_five_tuple(q)[i],
        forall|j: int|
            0 <= j < 13 && j != i ==> ipv4_five_tuple(p)[j] == ipv4_five_tuple(q)[j],
    ensures
        class_of(p).flow != class_of(q).flow,
{
    law_ipv4_class(p);
    law_ipv4_class(q);
    law_hash_tells_one_byte_apart(ipv4_five_tuple(p), ipv4_five_tuple(q), i);
}

/// Two IPv6 flows that differ in one byte of protocol, addresses and ports have
/// different keys.
pub proof fn law_ipv6_flows_are_told_apart(p: Seq<u8>, q: Seq<u8>, i: int)
    requires
        p.len() >= 40 && p[0] / 16 == 6,
        q.len() >= 40 && q[0] / 16 == 6,
        class_of(p).flow is Some,
        class_of(q).flow is Some,
        0 <= i < 37,
        ipv6_five_tuple(p)[i] != ipv6_five_tuple(q)[i],
        forall|j: int|
            0 <= j < 37 && j != i ==> ipv6_five_tuple(p)[j] == ipv6_five_tuple(q)[j],
    ensures
        class_of(p).flow != class_of(q).flow,
{
    law_ipv6_class(p);
    law_ipv6_class(q);
    law_hash_tells_one_byte_apart(ipv6_five_tuple(p), ipv6_five_tuple(q), i);
}

/// Flow keys spread over all the queues: a key goes to the queue that its
/// remainder names, so that two keys share one exactly where they leave the same
/// remainder, and every queue from one on has its keys.
pub proof fn law_keys_spread_over_the_queues(f: u64, g: u64, config: DatagramAqmConfig)
    requires
        config.flow_queues > 1,
    ensures
        SHARED_BUCKET == 0,
        bucket_of(Some(f), Some(config)) - 1 == f as int % config.flow_queues as int,
        bucket_of(Some(f), Some(config)) == bucket_of(Some(g), Some(config)) <==> (f - g)
            % config.flow_queues as int == 0,
        f < config.flow_queues ==> bucket_of(Some(f), Some(config)) == f + 1,
{
    let n = config.flow_queues as int;
    vstd::arithmetic::div_mod::lemma_mod_equivalence(f as int, g as int, n);
    if f < n {
        vstd::arithmetic::div_mod::lemma_small_mod(f as nat, n as nat);
    }
}

} // verus!
