//! What holds of the packet formats: what is built is read back, and what is
//! damaged, truncated or fragmented is rejected.
use vstd::prelude::*;

use crate::checksum::{internet_checksum, word_sum};
use crate::checksum_laws::{
    law_checksum_closes, law_corruption_is_detected, lemma_field_written, lemma_sums_to_zero,
};
use crate::packet::{
    addr_at, icmp_bytes, icmp_fault, icmp_fields, icmp_message, ipv4_bytes, ipv4_fault, ipv4_fields,
    ipv4_header, ipv4_header_len, pseudo_header_bytes, tcp_bytes, tcp_data_offset, tcp_fault,
    tcp_fields, tcp_options, tcp_segment, tcp_summed, udp_bytes, udp_checksum_field, udp_datagram,
    udp_fault, udp_fields, IcmpView, Ipv4Addr, Ipv4View, TcpView, UdpView, PROTO_UDP,
};
use crate::wire::{
    be16, be16_bytes, be32_bytes, lemma_be16_round_trip, lemma_be32_round_trip, len16,
};

verus! {

// ---------------------------------------------------------------- IPv4

/// A packet that was built is accepted, and holds what it was built from,
/// with 64 hops to live, if its length fits in the length field.
pub proof fn law_ipv4_round_trip(src: Ipv4Addr, dst: Ipv4Addr, protocol: u8, payload: Seq<u8>)
    requires
        20 + payload.len() <= 0xFFFF,
    ensures
        ({
            let b = ipv4_bytes(src, dst, protocol, payload);
            &&& ipv4_fault(b) is None
            &&& ipv4_fields(b) == Ipv4View { src, dst, protocol, ttl: 64, payload }
        }),
{
    let total = 20 + payload.len();
    let zero = ipv4_header(src, dst, protocol, total, 0);
    let sum = internet_checksum(zero);
    let header = ipv4_header(src, dst, protocol, total, sum);
    let b = header + payload;
    law_checksum_closes(zero, 10);
    assert(zero.update(10, be16_bytes(sum)[0]).update(11, be16_bytes(sum)[1]) =~= header);
    assert(b.take(20) =~= header);
    assert(b.subrange(2, 4) =~= be16_bytes(len16(total)));
    lemma_be16_round_trip(b, 2, len16(total));
    assert(b[0] == 0x45 && b[6] == 0x40 && b[7] == 0 && b[8] == 64 && b[9] == protocol);
    assert(addr_at(b, 12).0 =~= src.0);
    assert(addr_at(b, 16).0 =~= dst.0);
    assert(b.subrange(20, total as int) =~= payload);
}

/// A packet with a damaged byte in its header is rejected. (The first byte
/// says where the header ends.)
pub proof fn law_ipv4_damage_is_rejected(b: Seq<u8>, i: int, v: u8)
    requires
        ipv4_fault(b) is None,
        1 <= i < ipv4_header_len(b),
        v != b[i],
    ensures
        ipv4_fault(b.update(i, v)) is Some,
{
    let n = ipv4_header_len(b);
    law_corruption_is_detected(b.take(n), i, v);
    assert(b.update(i, v).take(n) =~= b.take(n).update(i, v));
}

/// A packet that lost bytes from its end is rejected.
pub proof fn law_ipv4_truncation_is_rejected(b: Seq<u8>, n: int)
    requires
        ipv4_fault(b) is None,
        0 <= n < be16(b, 2),
    ensures
        ipv4_fault(b.take(n)) is Some,
{
    if n >= 20 {
        assert(be16(b.take(n), 2) == be16(b, 2));
    }
}

/// A packet that is a fragment, with more to come or with an offset, is
/// rejected.
pub proof fn law_fragments_are_rejected(b: Seq<u8>)
    requires
        be16(b, 6) & 0x2000 != 0 || be16(b, 6) & 0x1FFF != 0,
    ensures
        ipv4_fault(b) is Some,
{
    let f = be16(b, 6);
    assert(f & 0x2000 != 0 || f & 0x1FFF != 0 ==> f % 0x4000 != 0) by (bit_vector);
}

// ---------------------------------------------------------------- ICMP

/// An ICMP message that was built is accepted, and holds what it was built
/// from.
pub proof fn law_icmp_round_trip(kind: u8, code: u8, rest: Seq<u8>, payload: Seq<u8>)
    requires
        rest.len() == 4,
    ensures
        icmp_fault(icmp_bytes(kind, code, rest, payload)) is None,
        icmp_fields(icmp_bytes(kind, code, rest, payload)) == (IcmpView {
            kind,
            code,
            rest,
            payload,
        }),
{
    let zero = icmp_message(kind, code, 0, rest, payload);
    let sum = internet_checksum(zero);
    let b = icmp_message(kind, code, sum, rest, payload);
    law_checksum_closes(zero, 2);
    assert(zero.update(2, be16_bytes(sum)[0]).update(3, be16_bytes(sum)[1]) =~= b);
    assert(b.subrange(4, 8) =~= rest);
    assert(b.skip(8) =~= payload);
}

/// An ICMP message with a damaged byte is rejected.
pub proof fn law_icmp_damage_is_rejected(b: Seq<u8>, i: int, v: u8)
    requires
        icmp_fault(b) is None,
        0 <= i < b.len(),
        v != b[i],
    ensures
        icmp_fault(b.update(i, v)) is Some,
{
    law_corruption_is_detected(b, i, v);
}

// ---------------------------------------------------------------- UDP

/// A datagram that was built is accepted between the addresses it was built
/// for, and holds what it was built from, if its length fits in the length
/// field.
pub proof fn law_udp_round_trip(
    src: Ipv4Addr,
    dst: Ipv4Addr,
    src_port: u16,
    dst_port: u16,
    payload: Seq<u8>,
)
    requires
        8 + payload.len() <= 0xFFFF,
    ensures
        ({
            let b = udp_bytes(src, dst, src_port, dst_port, payload);
            &&& udp_fault(src, dst, b) is None
            &&& udp_fields(b) == UdpView { src_port, dst_port, payload }
        }),
{
    let len = 8 + payload.len();
    let pseudo = pseudo_header_bytes(src, dst, PROTO_UDP, len);
    let zero = udp_datagram(src_port, dst_port, 0, payload);
    let sum = internet_checksum(pseudo + zero);
    let field = udp_checksum_field(sum);
    let b = udp_datagram(src_port, dst_port, field, payload);
    let bytes = be16_bytes(field);
    lemma_field_written(pseudo + zero, 18, field);
    assert((pseudo + zero).update(18, bytes[0]).update(19, bytes[1]) =~= pseudo + b);
    lemma_sums_to_zero(word_sum(pseudo + zero), field);
    assert(b.take(len as int) =~= b);
    assert(b.subrange(0, 2) =~= be16_bytes(src_port));
    assert(b.subrange(2, 4) =~= be16_bytes(dst_port));
    assert(b.subrange(4, 6) =~= be16_bytes(len16(len)));
    lemma_be16_round_trip(b, 0, src_port);
    lemma_be16_round_trip(b, 2, dst_port);
    lemma_be16_round_trip(b, 4, len16(len));
    assert(b.subrange(8, len as int) =~= payload);
}

/// What the checksum of an accepted datagram covers.
pub open spec fn udp_covered(src: Ipv4Addr, dst: Ipv4Addr, b: Seq<u8>) -> Seq<u8> {
    pseudo_header_bytes(src, dst, PROTO_UDP, be16(b, 4) as nat) + b.take(be16(b, 4) as int)
}

/// A datagram with a checksum and a damaged byte is rejected. (The length
/// says what the checksum covers, and a zero checksum says that there is
/// none.)
pub proof fn law_udp_damage_is_rejected(src: Ipv4Addr, dst: Ipv4Addr, b: Seq<u8>, i: int, v: u8)
    requires
        udp_fault(src, dst, b) is None,
        be16(b, 6) != 0,
        0 <= i < be16(b, 4),
        i != 4 && i != 5,
        v != b[i],
        be16(b.update(i, v), 6) != 0,
    ensures
        udp_fault(src, dst, b.update(i, v)) is Some,
{
    let t = b.update(i, v);
    law_corruption_is_detected(udp_covered(src, dst, b), 12 + i, v);
    assert(udp_covered(src, dst, t) =~= udp_covered(src, dst, b).update(12 + i, v));
}

/// A datagram that lost bytes from its end is rejected.
pub proof fn law_udp_truncation_is_rejected(src: Ipv4Addr, dst: Ipv4Addr, b: Seq<u8>, n: int)
    requires
        udp_fault(src, dst, b) is None,
        0 <= n < be16(b, 4),
    ensures
        udp_fault(src, dst, b.take(n)) is Some,
{
    if n >= 8 {
        assert(be16(b.take(n), 4) == be16(b, 4));
    }
}

/// The address with another byte at place `i`.
pub open spec fn readdressed(a: Ipv4Addr, i: int, v: u8) -> Ipv4Addr {
    addr_at(a.0@.update(i, v), 0)
}

/// The pseudo header is part of the checksum: a datagram with a checksum is
/// rejected at an address that differs from its own in one byte.
pub proof fn law_udp_address_is_covered(src: Ipv4Addr, dst: Ipv4Addr, b: Seq<u8>, i: int, v: u8)
    requires
        udp_fault(src, dst, b) is None,
        be16(b, 6) != 0,
        0 <= i < 4,
        v != dst.0[i],
    ensures
        udp_fault(src, readdressed(dst, i, v), b) is Some,
{
    let s = udp_covered(src, dst, b);
    law_corruption_is_detected(s, 4 + i, v);
    assert(readdressed(dst, i, v).0@ =~= dst.0@.update(i, v));
    assert(udp_covered(src, readdressed(dst, i, v), b) =~= s.update(4 + i, v));
}

// ---------------------------------------------------------------- TCP

/// A segment that was built is accepted between the addresses it was built
/// for, and holds what it was built from.
pub proof fn law_tcp_round_trip(src: Ipv4Addr, dst: Ipv4Addr, t: TcpView)
    ensures
        tcp_fault(src, dst, tcp_bytes(src, dst, t)) is None,
        tcp_fields(tcp_bytes(src, dst, t)) == t,
{
    let zero = tcp_segment(t, 0);
    let sum = internet_checksum(tcp_summed(src, dst, zero));
    let b = tcp_segment(t, sum);
    let bytes = be16_bytes(sum);
    let options = tcp_options(t.flags);
    assert(options.len() == 0 || options.len() == 4);
    law_checksum_closes(tcp_summed(src, dst, zero), 28);
    assert(tcp_summed(src, dst, zero).update(28, bytes[0]).update(29, bytes[1]) =~= tcp_summed(
        src,
        dst,
        b,
    ));
    assert(b[12] == ((20 + options.len()) / 4 * 16) as u8);
    assert(tcp_data_offset(b) == 20 + options.len());
    assert(b[13] == t.flags);
    assert(b.subrange(0, 2) =~= be16_bytes(t.src_port));
    assert(b.subrange(2, 4) =~= be16_bytes(t.dst_port));
    assert(b.subrange(4, 8) =~= be32_bytes(t.seq));
    assert(b.subrange(8, 12) =~= be32_bytes(t.ack));
    assert(b.subrange(14, 16) =~= be16_bytes(t.window));
    lemma_be16_round_trip(b, 0, t.src_port);
    lemma_be16_round_trip(b, 2, t.dst_port);
    lemma_be32_round_trip(b, 4, t.seq);
    lemma_be32_round_trip(b, 8, t.ack);
    lemma_be16_round_trip(b, 14, t.window);
    assert(b.skip(tcp_data_offset(b)) =~= t.payload);
}

/// A segment with a damaged byte is rejected.
pub proof fn law_tcp_damage_is_rejected(src: Ipv4Addr, dst: Ipv4Addr, b: Seq<u8>, i: int, v: u8)
    requires
        tcp_fault(src, dst, b) is None,
        0 <= i < b.len(),
        v != b[i],
    ensures
        tcp_fault(src, dst, b.update(i, v)) is Some,
{
    law_corruption_is_detected(tcp_summed(src, dst, b), 12 + i, v);
    assert(tcp_summed(src, dst, b.update(i, v)) =~= tcp_summed(src, dst, b).update(12 + i, v));
}

/// A segment that lost part of its header is rejected.
pub proof fn law_tcp_truncation_is_rejected(src: Ipv4Addr, dst: Ipv4Addr, b: Seq<u8>, n: int)
    requires
        tcp_fault(src, dst, b) is None,
        0 <= n < tcp_data_offset(b),
    ensures
        tcp_fault(src, dst, b.take(n)) is Some,
{
    if n >= 20 {
        assert(tcp_data_offset(b.take(n)) == tcp_data_offset(b));
    }
}

/// The pseudo header is part of the checksum: a segment is rejected at an
/// address that differs from its own in one byte.
pub proof fn law_tcp_address_is_covered(src: Ipv4Addr, dst: Ipv4Addr, b: Seq<u8>, i: int, v: u8)
    requires
        tcp_fault(src, dst, b) is None,
        0 <= i < 4,
        v != dst.0[i],
    ensures
        tcp_fault(src, readdressed(dst, i, v), b) is Some,
{
    let s = tcp_summed(src, dst, b);
    law_corruption_is_detected(s, 4 + i, v);
    assert(readdressed(dst, i, v).0@ =~= dst.0@.update(i, v));
    assert(tcp_summed(src, readdressed(dst, i, v), b) =~= s.update(4 + i, v));
}

} // verus!
