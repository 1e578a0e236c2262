//! The DATAGRAM frame and its wire format.
use vstd::prelude::*;

use crate::payload::{as_slice, bytes_contents};
use bytes::Bytes;

verus! {

/// Frame type of a DATAGRAM frame that runs to the end of its packet
pub const DATAGRAM_TYPE: u8 = 0x30;

/// Frame type of a DATAGRAM frame that carries its payload's length
pub const DATAGRAM_TYPE_WITH_LENGTH: u8 = 0x31;

/// Most bytes that a DATAGRAM frame adds to its payload
pub const DATAGRAM_SIZE_BOUND: usize = 9;

/// One more than the largest variable-length integer
pub const VARINT_LIMIT: u64 = 0x4000_0000_0000_0000;

/// An unreliable datagram
#[derive(Debug)]
pub struct Datagram {
    pub data: Bytes,
}

/// The `k` low-order bytes of `v`, most significant first
pub open spec fn big_endian(v: int, k: nat) -> Seq<u8>
    decreases k,
{
    if k == 0 {
        Seq::empty()
    } else {
        big_endian(v / 256, (k - 1) as nat).push((v % 256) as u8)
    }
}

/// Bytes that `n` takes as a variable-length integer (RFC 9000 section 16)
pub open spec fn varint_len(n: int) -> nat {
    if n < 0x40 {
        1
    } else if n < 0x4000 {
        2
    } else if n < 0x4000_0000 {
        4
    } else {
        8
    }
}

/// `n` as a variable-length integer: big-endian, with the length's logarithm in
/// the two high-order bits
pub open spec fn varint(n: int) -> Seq<u8> {
    if n < 0x40 {
        big_endian(n, 1)
    } else if n < 0x4000 {
        big_endian(0x4000 + n, 2)
    } else if n < 0x4000_0000 {
        big_endian(0x8000_0000 + n, 4)
    } else {
        big_endian(0xc000_0000_0000_0000 + n, 8)
    }
}

/// The DATAGRAM frame that carries `data`
pub open spec fn frame(data: Seq<u8>, length: bool) -> Seq<u8> {
    if length {
        seq![DATAGRAM_TYPE_WITH_LENGTH] + varint(data.len() as int) + data
    } else {
        seq![DATAGRAM_TYPE] + data
    }
}

/// Size of the DATAGRAM frame around a payload of `len` bytes
pub open spec fn frame_size(len: int, length: bool) -> int {
    if length {
        1 + varint_len(len) + len
    } else {
        1 + len
    }
}

/// Whether a payload of `len` bytes fits a frame that carries its length: the
/// length as a variable-length integer, the frame's size as a machine word
pub open spec fn encodable(len: int) -> bool {
    len < VARINT_LIMIT && len + DATAGRAM_SIZE_BOUND <= usize::MAX
}

impl Datagram {
    /// The payload
    pub open spec fn payload(&self) -> Seq<u8> {
        bytes_contents(self.data)
    }

    /// Size of this datagram's frame, with or without the payload's length in it
    pub fn size(&self, length: bool) -> (size: usize)
        requires
            encodable(self.payload().len() as int),
        ensures
            size == frame_size(self.payload().len() as int, length),
            size <= self.payload().len() + DATAGRAM_SIZE_BOUND,
    {
        let len: usize = self.data.len();
        if length {
            let prefix: usize = if len < 0x40 {
                1
            } else if len < 0x4000 {
                2
            } else if len < 0x4000_0000 {
                4
            } else {
                8
            };
            1 + prefix + len
        } else {
            1 + len
        }
    }

    /// Append this datagram's frame to `out`
    pub fn encode(&self, length: bool, out: &mut Vec<u8>)
        requires
            encodable(self.payload().len() as int),
        ensures
            final(out)@ == old(out)@ + frame(self.payload(), length),
    {
        let ghost before = out@;
        if length {
            out.push(DATAGRAM_TYPE_WITH_LENGTH);
            write_varint(out, self.data.len() as u64);
        } else {
            out.push(DATAGRAM_TYPE);
        }
        let ghost header = out@;
        let slice: &[u8] = as_slice(&self.data);
        out.extend_from_slice(slice);
        assert(out@ =~= header + self.payload());
        assert(out@ =~= before + frame(self.payload(), length));
    }
}

/// Append the `k` low-order bytes of `v`, most significant first
fn write_big_endian(out: &mut Vec<u8>, v: u64, k: u8)
    ensures
        final(out)@ == old(out)@ + big_endian(v as int, k as nat),
    decreases k,
{
    if k > 0 {
        write_big_endian(out, v / 256, k - 1);
        out.push((v % 256) as u8);
    }
}

/// Append `n` as a variable-length integer
fn write_varint(out: &mut Vec<u8>, n: u64)
    requires
        n < VARINT_LIMIT,
    ensures
        final(out)@ == old(out)@ + varint(n as int),
{
    if n < 0x40 {
        write_big_endian(out, n, 1);
    } else if n < 0x4000 {
        write_big_endian(out, 0x4000 + n, 2);
    } else if n < 0x4000_0000 {
        write_big_endian(out, 0x8000_0000 + n, 4);
    } else {
        write_big_endian(out, 0xc000_0000_0000_0000 + n, 8);
    }
}

proof fn lemma_big_endian_len(v: int, k: nat)
    ensures
        big_endian(v, k).len() == k,
    decreases k,
{
    if k > 0 {
        lemma_big_endian_len(v / 256, (k - 1) as nat);
    }
}

/// A frame takes exactly the bytes that its computed size says.
pub proof fn law_frame_has_its_size(data: Seq<u8>, length: bool)
    ensures
        frame(data, length).len() == frame_size(data.len() as int, length),
{
    let n = data.len() as int;
    lemma_big_endian_len(n, 1);
    lemma_big_endian_len(0x4000 + n, 2);
    lemma_big_endian_len(0x8000_0000 + n, 4);
    lemma_big_endian_len(0xc000_0000_0000_0000 + n, 8);
}

/// The number whose leading digits are `lead` and whose further digits, base 256,
/// are `bytes`
pub open spec fn digits_value(lead: int, bytes: Seq<u8>) -> int
    decreases bytes.len(),
{
    if bytes.len() == 0 {
        lead
    } else {
        digits_value(lead, bytes.drop_last()) * 256 + bytes.last()
    }
}

/// The variable-length integer at the front of `bytes`, and what follows it, as a
/// peer reads them: the two high-order bits of the first byte give the width, all
/// others the value
pub open spec fn read_varint(bytes: Seq<u8>) -> Option<(int, Seq<u8>)> {
    if bytes.len() == 0 {
        None
    } else {
        let width: int = if bytes[0] < 0x40 {
            1
        } else if bytes[0] < 0x80 {
            2
        } else if bytes[0] < 0xc0 {
            4
        } else {
            8
        };
        if bytes.len() < width {
            None
        } else {
            Some((digits_value(bytes[0] as int % 64, bytes.subrange(1, width)), bytes.skip(width)))
        }
    }
}

/// The payload of the DATAGRAM frame at the front of `bytes`, and what follows the
/// frame, as a peer reads them
pub open spec fn read_frame(bytes: Seq<u8>) -> Option<(Seq<u8>, Seq<u8>)> {
    if bytes.len() == 0 {
        None
    } else if bytes[0] == 0x30 {
        Some((bytes.skip(1), Seq::empty()))
    } else if bytes[0] == 0x31 {
        match read_varint(bytes.skip(1)) {
            Some((len, rest)) => if len <= rest.len() {
                Some((rest.take(len), rest.skip(len)))
            } else {
                None
            },
            None => None,
        }
    } else {
        None
    }
}

/// 256 to the power of `k`
spec fn place(k: nat) -> int
    decreases k,
{
    if k == 0 {
        1
    } else {
        256 * place((k - 1) as nat)
    }
}

proof fn lemma_place_positive(k: nat)
    ensures
        place(k) > 0,
    decreases k,
{
    if k > 0 {
        lemma_place_positive((k - 1) as nat);
    }
}

/// The first digit of a number, and the value of the others behind a lead
proof fn lemma_digits(v: int, k: nat, lead: int)
    requires
        v >= 0,
    ensures
        big_endian(v, k + 1).len() == k + 1,
        big_endian(v, k + 1)[0] == v / place(k) % 256,
        digits_value(lead, big_endian(v, k + 1).subrange(1, k as int + 1)) == lead * place(k) + v
            % place(k),
    decreases k,
{
    let all = big_endian(v, k + 1);
    lemma_big_endian_len(v, k + 1);
    if k == 0 {
        reveal_with_fuel(big_endian, 2);
        assert(all.subrange(1, 1) =~= Seq::<u8>::empty());
        assert(v / 1 == v && v % 1 == 0);
    } else {
        let m = (k - 1) as nat;
        let unit = place(m);
        lemma_digits(v / 256, m, lead);
        lemma_place_positive(m);
        let most = big_endian(v / 256, k);
        assert(all == most.push((v % 256) as u8));
        assert(all.subrange(1, k as int + 1).drop_last() =~= most.subrange(1, k as int));
        vstd::arithmetic::div_mod::lemma_mod_breakdown(v, 256, unit);
        vstd::arithmetic::div_mod::lemma_div_denominator(v, 256, unit);
        assert((lead * unit) * 256 == lead * (256 * unit)) by (nonlinear_arith);
    }
}

/// A peer reads back the number that was written, and exactly its bytes.
pub proof fn law_varint_reads_back(n: int, more: Seq<u8>)
    requires
        0 <= n < 0x4000_0000_0000_0000,
    ensures
        read_varint(varint(n) + more) == Some((n, more)),
{
    let written = varint(n);
    let bytes = written + more;
    reveal_with_fuel(place, 8);
    if n < 0x40 {
        lemma_tagged(n, 0, 0, n, 0x40);
    } else if n < 0x4000 {
        lemma_tagged(n, 1, 1, 0x4000 + n, 0x4000);
    } else if n < 0x4000_0000 {
        lemma_tagged(n, 2, 3, 0x8000_0000 + n, 0x4000_0000);
    } else {
        lemma_tagged(n, 3, 7, 0xc000_0000_0000_0000 + n, 0x4000_0000_0000_0000);
    }
    let width = written.len() as int;
    assert(bytes.skip(width) =~= more);
    assert(bytes.subrange(1, width) =~= written.subrange(1, width));
    assert(bytes[0] == written[0]);
}

/// The digits of `n` under a tag in the two high-order bits
proof fn lemma_tagged(n: int, tag: int, k: nat, v: int, limit: int)
    requires
        0 <= n < limit == 64 * place(k),
        0 <= tag < 4,
        v == tag * limit + n,
    ensures
        big_endian(v, k + 1).len() == k + 1,
        64 * tag <= big_endian(v, k + 1)[0] < 64 * tag + 64,
        digits_value(
            big_endian(v, k + 1)[0] as int % 64,
            big_endian(v, k + 1).subrange(1, k as int + 1),
        ) == n,
{
    let unit = place(k);
    lemma_place_positive(k);
    let lead = n / unit;
    vstd::arithmetic::div_mod::lemma_fundamental_div_mod(n, unit);
    assert(0 <= lead < 64) by (nonlinear_arith)
        requires
            lead == n / unit,
            0 <= n < 64 * unit,
            unit > 0,
    ;
    assert(v == (tag * 64) * unit + n) by (nonlinear_arith)
        requires
            v == tag * limit + n,
            limit == 64 * unit,
    ;
    vstd::arithmetic::div_mod::lemma_hoist_over_denominator(n, tag * 64, unit as nat);
    vstd::arithmetic::div_mod::lemma_mod_multiples_vanish(tag * 64, n, unit);
    assert((tag * 64) * unit == unit * (tag * 64)) by (nonlinear_arith);
    assert(v / unit == lead + tag * 64);
    assert(v % unit == n % unit);
    assert(v >= 0) by (nonlinear_arith)
        requires
            v == tag * limit + n,
            tag >= 0,
            limit > 0,
            n >= 0,
    ;
    lemma_digits(v, k, lead);
    assert(lead * unit == unit * lead) by (nonlinear_arith);
}

/// No number takes more bytes than it needs.
pub proof fn law_varint_is_shortest(n: int)
    requires
        0 <= n < 0x4000_0000_0000_0000,
    ensures
        varint(n).len() == varint_len(n),
        varint(n).len() == 1 <==> n < 0x40,
        varint(n).len() == 2 <==> 0x40 <= n < 0x4000,
        varint(n).len() == 4 <==> 0x4000 <= n < 0x4000_0000,
        varint(n).len() == 8 <==> 0x4000_0000 <= n,
{
    lemma_big_endian_len(n, 1);
    lemma_big_endian_len(0x4000 + n, 2);
    lemma_big_endian_len(0x8000_0000 + n, 4);
    lemma_big_endian_len(0xc000_0000_0000_0000 + n, 8);
}

/// A peer reads back the payload that was framed. With its length in it a frame
/// also ends where it should, whatever follows.
pub proof fn law_frame_reads_back(data: Seq<u8>, more: Seq<u8>)
    requires
        data.len() < 0x4000_0000_0000_0000,
    ensures
        read_frame(frame(data, true) + more) == Some((data, more)),
        read_frame(frame(data, false)) == Some((data, Seq::<u8>::empty())),
        frame(data, true)[0] == 0x31,
        frame(data, false)[0] == 0x30,
{
    let n = data.len() as int;
    let bytes = frame(data, true) + more;
    law_varint_reads_back(n, data + more);
    assert(bytes.skip(1) =~= varint(n) + (data + more));
    assert((data + more).take(n) =~= data);
    assert((data + more).skip(n) =~= more);
    assert(frame(data, false).skip(1) =~= data);
}

/// Framing a payload adds at most nine bytes: the type, and a length of one to
/// eight bytes.
pub proof fn law_framing_adds_at_most_nine_bytes(len: int)
    requires
        0 <= len < 0x4000_0000_0000_0000,
    ensures
        frame_size(len, false) == len + 1,
        frame_size(len, true) == len + 1 + varint(len).len(),
        len + 2 <= frame_size(len, true) <= len + 9,
        DATAGRAM_SIZE_BOUND == 9,
        encodable(len) <==> len + 9 <= usize::MAX,
{
    law_varint_is_shortest(len);
}

} // verus!
