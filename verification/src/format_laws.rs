//! The packet formats byte by byte: which bytes are accepted, what they hold,
//! and which bytes are built, in terms of the bytes themselves.
use vstd::prelude::*;

use crate::checksum::{
    byte_weight, contents, internet_checksum, joined, lemma_word_sum_concat, lemma_word_sum_push,
    word_sum,
};
use crate::packet::{
    icmp_bytes, icmp_fault, icmp_fields, icmp_message, ipv4_bytes, ipv4_fault, ipv4_fields,
    ipv4_header, pseudo_header_bytes, tcp_bytes, tcp_fault, tcp_fields, tcp_options, tcp_segment,
    udp_bytes, udp_datagram, udp_fault, udp_fields, Ipv4Addr, Icmp, IcmpView, Ipv4Packet, Ipv4View,
    TcpSegment, TcpView, Udp, UdpView, ACK, FIN, PROTO_ICMP, PROTO_TCP, PROTO_UDP, PSH, RST, SYN,
};

verus! {

// ---------------------------------------------------------------- the checksum

/// A message is summed word by word, high byte first; an odd last byte is the
/// high half of a word.
pub proof fn law_words_add_up(high: u8, low: u8, rest: Seq<u8>)
    ensures
        word_sum(Seq::empty()) == 0,
        word_sum(seq![high]) == high * 256,
        word_sum(seq![high, low] + rest) == high * 256 + low + word_sum(rest),
{
    let two = seq![high, low];
    assert(Seq::empty().push(high) =~= seq![high]);
    assert(seq![high].push(low) =~= two);
    lemma_word_sum_push(Seq::empty(), high);
    lemma_word_sum_push(seq![high], low);
    assert(byte_weight(1) == 1);
    assert(word_sum(two) == high * 256 + low);
    lemma_word_sum_concat(two, rest);
}

/// The checksum makes up for the sum: together they are a multiple of 65535;
/// and it is 65535 only for a sum of zero.
pub proof fn law_checksum_makes_up_for_the_sum(s: Seq<u8>)
    ensures
        (word_sum(s) + internet_checksum(s)) % 65535 == 0,
        (internet_checksum(s) == 65535) == (word_sum(s) == 0),
{
    let w = word_sum(s);
    if w > 0 {
        let q = (w - 1) / 65535;
        let r = (w - 1) % 65535;
        assert(w - 1 == q * 65535 + r);
        assert(internet_checksum(s) == 65535 - (r + 1));
        assert(w + internet_checksum(s) == (q + 1) * 65535);
        assert(((q + 1) * 65535) % 65535 == 0);
    }
}

/// The message of a list of slices is their bytes, slice after slice.
pub proof fn law_slices_are_joined(chunks: Seq<&[u8]>, last: &[u8])
    ensures
        joined(contents(Seq::empty())) == Seq::<u8>::empty(),
        joined(contents(chunks.push(last))) == joined(contents(chunks)) + last@,
{
    let all = contents(chunks.push(last));
    assert(all.drop_last() =~= contents(chunks));
    assert(all.last() == last@);
}

// ---------------------------------------------------------------- numbers and flags

/// The protocol numbers and the flags of a segment, and what it is to have a
/// flag.
pub proof fn law_numbers(t: TcpView, flag: u8)
    ensures
        PROTO_ICMP == 1,
        PROTO_TCP == 6,
        PROTO_UDP == 17,
        FIN == 1,
        SYN == 2,
        RST == 4,
        PSH == 8,
        ACK == 16,
        t.has(flag) == (t.flags & flag != 0),
{
}

// ---------------------------------------------------------------- IPv4

/// A packet is accepted if and only if it has a header of version 4, of a
/// length of 20 to 60 bytes that it holds, a total length that covers the
/// header and that it holds, neither the mark of more fragments nor an
/// offset, and a header that verifies; and then its fields stand in their
/// places.
pub proof fn law_ipv4_accepted(b: Seq<u8>)
    ensures
        ({
            let header = (b[0] % 16) * 4;
            let total = b[2] * 256 + b[3];
            ipv4_fault(b) is None <==> {
                &&& b.len() >= 20
                &&& b[0] / 16 == 4
                &&& 20 <= header <= b.len()
                &&& header <= total <= b.len()
                &&& b[6] % 64 == 0
                &&& b[7] == 0
                &&& internet_checksum(b.take(header)) == 0
            }
        }),
        ipv4_fault(b) is None ==> {
            let p = ipv4_fields(b);
            let header = (b[0] % 16) * 4;
            let total = b[2] * 256 + b[3];
            &&& p.src.0@ == b.subrange(12, 16)
            &&& p.dst.0@ == b.subrange(16, 20)
            &&& p.protocol == b[9]
            &&& p.ttl == b[8]
            &&& p.payload == b.subrange(header, total)
        },
{
    if b.len() >= 20 {
        let f = b[6] * 256 + b[7];
        assert((f % 0x4000 == 0) == (b[6] % 64 == 0 && b[7] == 0));
        assert(ipv4_fields(b).src.0@ =~= b.subrange(12, 16));
        assert(ipv4_fields(b).dst.0@ =~= b.subrange(16, 20));
    }
}

/// Why a packet is rejected: each complaint, where all before it do not
/// apply.
pub proof fn law_ipv4_complaints(b: Seq<u8>)
    ensures
        b.len() < 20 ==> ipv4_fault(b) == Some("ipv4: too short"@),
        b.len() >= 20 ==> {
            let header = (b[0] % 16) * 4;
            let total = b[2] * 256 + b[3];
            let whole = b[6] % 64 == 0 && b[7] == 0;
            &&& b[0] / 16 != 4 ==> ipv4_fault(b) == Some("ipv4: not version 4"@)
            &&& b[0] / 16 == 4 && (header < 20 || header > b.len()) ==> ipv4_fault(b) == Some(
                "ipv4: bad header length"@,
            )
            &&& b[0] / 16 == 4 && 20 <= header <= b.len() ==> {
                &&& total < header || total > b.len() ==> ipv4_fault(b) == Some(
                    "ipv4: bad total length"@,
                )
                &&& header <= total <= b.len() && !whole ==> ipv4_fault(b) == Some(
                    "ipv4: fragments are not supported"@,
                )
                &&& header <= total <= b.len() && whole && internet_checksum(b.take(header)) != 0
                    ==> ipv4_fault(b) == Some("ipv4: bad checksum"@)
            }
        },
{
    if b.len() >= 20 {
        let f = b[6] * 256 + b[7];
        assert((f % 0x4000 == 0) == (b[6] % 64 == 0 && b[7] == 0));
    }
}

/// A packet that is built: a header of 20 bytes, each in its place, whose
/// checksum is that of the header without it, then the payload.
pub proof fn law_ipv4_built(src: Ipv4Addr, dst: Ipv4Addr, protocol: u8, payload: Seq<u8>)
    ensures
        ({
            let b = ipv4_bytes(src, dst, protocol, payload);
            &&& b.len() == 20 + payload.len()
            &&& b[0] == 0x45 && b[1] == 0
            &&& b[2] * 256 + b[3] == (20 + payload.len()) % 65536
            &&& b[4] == 0 && b[5] == 0
            &&& b[6] == 0x40 && b[7] == 0
            &&& b[8] == 64
            &&& b[9] == protocol
            &&& b[10] * 256 + b[11] == internet_checksum(b.take(20).update(10, 0).update(11, 0))
            &&& b.subrange(12, 16) == src.0@
            &&& b.subrange(16, 20) == dst.0@
            &&& b.skip(20) == payload
        }),
{
    let b = ipv4_bytes(src, dst, protocol, payload);
    let zero = ipv4_header(src, dst, protocol, 20 + payload.len(), 0);
    assert(b.take(20).update(10, 0).update(11, 0) =~= zero);
    assert(b.subrange(12, 16) =~= src.0@);
    assert(b.subrange(16, 20) =~= dst.0@);
    assert(b.skip(20) =~= payload);
}

// ---------------------------------------------------------------- ICMP

/// An ICMP message is accepted if and only if it has eight bytes and
/// verifies; and then its fields stand in their places.
pub proof fn law_icmp_accepted(b: Seq<u8>)
    ensures
        icmp_fault(b) is None <==> b.len() >= 8 && internet_checksum(b) == 0,
        b.len() < 8 ==> icmp_fault(b) == Some("icmp: too short"@),
        b.len() >= 8 && internet_checksum(b) != 0 ==> icmp_fault(b) == Some("icmp: bad checksum"@),
        icmp_fault(b) is None ==> {
            let m = icmp_fields(b);
            &&& m.kind == b[0]
            &&& m.code == b[1]
            &&& m.rest == b.subrange(4, 8)
            &&& m.payload == b.skip(8)
        },
{
}

/// An ICMP message that is built.
pub proof fn law_icmp_built(kind: u8, code: u8, rest: Seq<u8>, payload: Seq<u8>)
    requires
        rest.len() == 4,
    ensures
        ({
            let b = icmp_bytes(kind, code, rest, payload);
            &&& b.len() == 8 + payload.len()
            &&& b[0] == kind
            &&& b[1] == code
            &&& b[2] * 256 + b[3] == internet_checksum(b.update(2, 0).update(3, 0))
            &&& b.subrange(4, 8) == rest
            &&& b.skip(8) == payload
        }),
{
    let b = icmp_bytes(kind, code, rest, payload);
    assert(b.update(2, 0).update(3, 0) =~= icmp_message(kind, code, 0, rest, payload));
    assert(b.subrange(4, 8) =~= rest);
    assert(b.skip(8) =~= payload);
}

// ---------------------------------------------------------------- UDP and TCP

/// The pseudo header: both addresses, a zero, the protocol, and the length in
/// sixteen bits.
pub proof fn law_pseudo_header(src: Ipv4Addr, dst: Ipv4Addr, protocol: u8, len: nat)
    ensures
        ({
            let p = pseudo_header_bytes(src, dst, protocol, len);
            &&& p.len() == 12
            &&& p.subrange(0, 4) == src.0@
            &&& p.subrange(4, 8) == dst.0@
            &&& p[8] == 0
            &&& p[9] == protocol
            &&& p[10] * 256 + p[11] == len % 65536
        }),
{
    let p = pseudo_header_bytes(src, dst, protocol, len);
    assert(p.subrange(0, 4) =~= src.0@);
    assert(p.subrange(4, 8) =~= dst.0@);
}

/// A datagram is accepted if and only if it has eight bytes, a length of at
/// least eight that it holds, and no checksum or one that verifies over the
/// pseudo header and that length; and then its fields stand in their places.
pub proof fn law_udp_accepted(src: Ipv4Addr, dst: Ipv4Addr, b: Seq<u8>)
    ensures
        ({
            let len = b[4] * 256 + b[5];
            let sum = internet_checksum(
                pseudo_header_bytes(src, dst, 17, len as nat) + b.take(len),
            );
            &&& udp_fault(src, dst, b) is None <==> {
                &&& b.len() >= 8
                &&& 8 <= len <= b.len()
                &&& (b[6] == 0 && b[7] == 0) || sum == 0
            }
            &&& b.len() < 8 ==> udp_fault(src, dst, b) == Some("udp: too short"@)
            &&& b.len() >= 8 && (len < 8 || len > b.len()) ==> udp_fault(src, dst, b) == Some(
                "udp: bad length"@,
            )
            &&& b.len() >= 8 && 8 <= len <= b.len() && (b[6] != 0 || b[7] != 0) && sum != 0
                ==> udp_fault(src, dst, b) == Some("udp: bad checksum"@)
            &&& udp_fault(src, dst, b) is None ==> {
                &&& udp_fields(b).src_port == b[0] * 256 + b[1]
                &&& udp_fields(b).dst_port == b[2] * 256 + b[3]
                &&& udp_fields(b).payload == b.subrange(8, len)
            }
        }),
{
}

/// A datagram that is built. A checksum of zero is sent as 65535.
pub proof fn law_udp_built(
    src: Ipv4Addr,
    dst: Ipv4Addr,
    src_port: u16,
    dst_port: u16,
    payload: Seq<u8>,
)
    ensures
        ({
            let b = udp_bytes(src, dst, src_port, dst_port, payload);
            let sum = internet_checksum(
                pseudo_header_bytes(src, dst, 17, 8 + payload.len()) + b.update(6, 0).update(7, 0),
            );
            &&& b.len() == 8 + payload.len()
            &&& b[0] * 256 + b[1] == src_port
            &&& b[2] * 256 + b[3] == dst_port
            &&& b[4] * 256 + b[5] == (8 + payload.len()) % 65536
            &&& sum != 0 ==> b[6] * 256 + b[7] == sum
            &&& sum == 0 ==> b[6] == 0xFF && b[7] == 0xFF
            &&& b.skip(8) == payload
        }),
{
    let b = udp_bytes(src, dst, src_port, dst_port, payload);
    assert(b.update(6, 0).update(7, 0) =~= udp_datagram(src_port, dst_port, 0, payload));
    assert(b.skip(8) =~= payload);
}

/// A segment is accepted if and only if it has twenty bytes, a header of 20
/// to 60 bytes that it holds, with whatever options, and verifies with the
/// pseudo header; and then its fields stand in their places, and the payload
/// is what follows the header.
pub proof fn law_tcp_accepted(src: Ipv4Addr, dst: Ipv4Addr, b: Seq<u8>)
    ensures
        ({
            let header = (b[12] / 16) * 4;
            let sum = internet_checksum(pseudo_header_bytes(src, dst, 6, b.len()) + b);
            &&& tcp_fault(src, dst, b) is None <==> {
                &&& b.len() >= 20
                &&& 20 <= header <= b.len()
                &&& sum == 0
            }
            &&& b.len() < 20 ==> tcp_fault(src, dst, b) == Some("tcp: too short"@)
            &&& b.len() >= 20 && (header < 20 || header > b.len()) ==> tcp_fault(src, dst, b)
                == Some("tcp: bad data offset"@)
            &&& b.len() >= 20 && 20 <= header <= b.len() && sum != 0 ==> tcp_fault(src, dst, b)
                == Some("tcp: bad checksum"@)
            &&& tcp_fault(src, dst, b) is None ==> {
                let t = tcp_fields(b);
                &&& t.src_port == b[0] * 256 + b[1]
                &&& t.dst_port == b[2] * 256 + b[3]
                &&& t.seq == ((b[4] * 256 + b[5]) * 256 + b[6]) * 256 + b[7]
                &&& t.ack == ((b[8] * 256 + b[9]) * 256 + b[10]) * 256 + b[11]
                &&& t.flags == b[13]
                &&& t.window == b[14] * 256 + b[15]
                &&& t.payload == b.skip(header)
            }
        }),
{
}

/// A segment that is built: a header of 20 bytes, or of 24 on a SYN, which
/// announces segments of 1200 bytes, then the payload.
pub proof fn law_tcp_built(src: Ipv4Addr, dst: Ipv4Addr, t: TcpView)
    ensures
        ({
            let b = tcp_bytes(src, dst, t);
            let header: int = if t.flags & 2 != 0 {
                24
            } else {
                20
            };
            &&& b.len() == header + t.payload.len()
            &&& b[0] * 256 + b[1] == t.src_port
            &&& b[2] * 256 + b[3] == t.dst_port
            &&& ((b[4] * 256 + b[5]) * 256 + b[6]) * 256 + b[7] == t.seq
            &&& ((b[8] * 256 + b[9]) * 256 + b[10]) * 256 + b[11] == t.ack
            &&& b[12] == header * 4
            &&& b[13] == t.flags
            &&& b[14] * 256 + b[15] == t.window
            &&& b[16] * 256 + b[17] == internet_checksum(
                pseudo_header_bytes(src, dst, 6, b.len()) + b.update(16, 0).update(17, 0),
            )
            &&& b[18] == 0 && b[19] == 0
            &&& t.flags & 2 != 0 ==> b[20] == 2 && b[21] == 4 && b[22] * 256 + b[23] == 1200
            &&& b.skip(header) == t.payload
        }),
{
    let b = tcp_bytes(src, dst, t);
    let options = tcp_options(t.flags);
    assert(options.len() == 0 || options.len() == 4);
    assert(b.update(16, 0).update(17, 0) =~= tcp_segment(t, 0));
    assert(b.skip(20 + options.len() as int) =~= t.payload);
}

// ---------------------------------------------------------------- contents

/// The contents of parsed packets are their fields.
pub proof fn law_contents_are_the_fields(ip: Ipv4Packet, m: Icmp, udp: Udp, tcp: TcpSegment)
    ensures
        ip@ == (Ipv4View {
            src: ip.src,
            dst: ip.dst,
            protocol: ip.protocol,
            ttl: ip.ttl,
            payload: ip.payload@,
        }),
        m@ == (IcmpView { kind: m.kind, code: m.code, rest: m.rest@, payload: m.payload@ }),
        udp@ == (UdpView {
            src_port: udp.src_port,
            dst_port: udp.dst_port,
            payload: udp.payload@,
        }),
        tcp@ == (TcpView {
            src_port: tcp.src_port,
            dst_port: tcp.dst_port,
            seq: tcp.seq,
            ack: tcp.ack,
            flags: tcp.flags,
            window: tcp.window,
            payload: tcp.payload@,
        }),
{
}

} // verus!
