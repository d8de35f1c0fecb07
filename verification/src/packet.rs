//! Parsing and building of IPv4, ICMP, UDP and TCP packets. Everything is
//! plain byte slices.
use vstd::prelude::*;

use crate::checksum::{
    contents, internet_checksum, lemma_joined_one, lemma_joined_two, lemma_word_sum_bound, word_sum,
};
use crate::wire::{
    be16, be16_bytes, be32, be32_bytes, len16, length16, push16, push32, push_bytes, read16, read32,
    write16,
};

pub use crate::checksum::checksum;

verus! {

pub const PROTO_ICMP: u8 = 1;

pub const PROTO_TCP: u8 = 6;

pub const PROTO_UDP: u8 = 17;

pub const FIN: u8 = 0x01;

pub const SYN: u8 = 0x02;

pub const RST: u8 = 0x04;

pub const PSH: u8 = 0x08;

pub const ACK: u8 = 0x10;

#[derive(Clone, Copy, PartialEq, Eq, Hash, Debug, PartialOrd, Ord)]
pub struct Ipv4Addr(pub [u8; 4]);

impl Ipv4Addr {
    pub fn new(a: u8, b: u8, c: u8, d: u8) -> (addr: Self)
        ensures
            addr == Ipv4Addr([a, b, c, d]),
    {
        Ipv4Addr([a, b, c, d])
    }

    /// Whether two addresses are the same.
    pub fn same_as(&self, other: &Ipv4Addr) -> (same: bool)
        ensures
            same == (*self == *other),
    {
        let same: bool = self.0[0] == other.0[0] && self.0[1] == other.0[1] && self.0[2]
            == other.0[2] && self.0[3] == other.0[3];
        proof {
            if same {
                assert(self.0 =~= other.0);
            }
        }
        same
    }
}

/// The address in the four bytes at place `i` of `s`.
pub open spec fn addr_at(s: Seq<u8>, i: int) -> Ipv4Addr {
    Ipv4Addr([s[i], s[i + 1], s[i + 2], s[i + 3]])
}

fn read_addr(bytes: &[u8], i: usize) -> (addr: Ipv4Addr)
    requires
        i + 4 <= bytes@.len(),
    ensures
        addr == addr_at(bytes@, i as int),
{
    Ipv4Addr([bytes[i], bytes[i + 1], bytes[i + 2], bytes[i + 3]])
}

fn sum_of(bytes: &[u8]) -> (sum: u16)
    requires
        word_sum(bytes@) <= u32::MAX,
    ensures
        sum == internet_checksum(bytes@),
{
    let chunks = [bytes];
    proof {
        lemma_joined_one(bytes@);
        assert(contents(chunks@) =~= seq![bytes@]);
    }
    checksum(&chunks)
}

fn sum_of_two(head: &[u8], bytes: &[u8]) -> (sum: u16)
    requires
        word_sum(head@ + bytes@) <= u32::MAX,
    ensures
        sum == internet_checksum(head@ + bytes@),
{
    let chunks = [head, bytes];
    proof {
        lemma_joined_two(head@, bytes@);
        assert(contents(chunks@) =~= seq![head@, bytes@]);
    }
    checksum(&chunks)
}

// ---------------------------------------------------------------- IPv4

#[derive(Debug, Clone, PartialEq, Eq)]
pub struct Ipv4Packet<'a> {
    pub src: Ipv4Addr,
    pub dst: Ipv4Addr,
    pub protocol: u8,
    pub ttl: u8,
    pub payload: &'a [u8],
}

/// The contents of an IPv4 packet.
pub struct Ipv4View {
    pub src: Ipv4Addr,
    pub dst: Ipv4Addr,
    pub protocol: u8,
    pub ttl: u8,
    pub payload: Seq<u8>,
}

impl<'a> View for Ipv4Packet<'a> {
    type V = Ipv4View;

    open spec fn view(&self) -> Ipv4View {
        Ipv4View {
            src: self.src,
            dst: self.dst,
            protocol: self.protocol,
            ttl: self.ttl,
            payload: self.payload@,
        }
    }
}

/// The length of the header that the first byte of a packet announces.
pub open spec fn ipv4_header_len(b: Seq<u8>) -> int {
    b[0] % 16 * 4
}

/// Why a packet is rejected: the first of these complaints that applies, or
/// `None` for a packet that is accepted.
pub open spec fn ipv4_fault(b: Seq<u8>) -> Option<Seq<char>> {
    if b.len() < 20 {
        Some("ipv4: too short"@)
    } else if b[0] / 16 != 4 {
        Some("ipv4: not version 4"@)
    } else if ipv4_header_len(b) < 20 || b.len() < ipv4_header_len(b) {
        Some("ipv4: bad header length"@)
    } else if be16(b, 2) < ipv4_header_len(b) || be16(b, 2) > b.len() {
        Some("ipv4: bad total length"@)
    } else if be16(b, 6) % 0x4000 != 0 {
        // more fragments to come, or an offset into a fragmented packet
        Some("ipv4: fragments are not supported"@)
    } else if internet_checksum(b.take(ipv4_header_len(b))) != 0 {
        Some("ipv4: bad checksum"@)
    } else {
        None
    }
}

/// What an accepted packet holds.
pub open spec fn ipv4_fields(b: Seq<u8>) -> Ipv4View {
    Ipv4View {
        src: addr_at(b, 12),
        dst: addr_at(b, 16),
        protocol: b[9],
        ttl: b[8],
        payload: b.subrange(ipv4_header_len(b), be16(b, 2) as int),
    }
}

/// A 20-byte header with the given checksum field, for a packet that may not
/// be fragmented, with 64 hops to live.
pub open spec fn ipv4_header(
    src: Ipv4Addr,
    dst: Ipv4Addr,
    protocol: u8,
    total: nat,
    sum: u16,
) -> Seq<u8> {
    seq![0x45, 0] + be16_bytes(len16(total)) + seq![0, 0, 0x40, 0, 64, protocol] + be16_bytes(sum)
        + src.0@ + dst.0@
}

/// The packet built around a payload: a header whose checksum is that of the
/// same header with a zero checksum field, then the payload.
pub open spec fn ipv4_bytes(
    src: Ipv4Addr,
    dst: Ipv4Addr,
    protocol: u8,
    payload: Seq<u8>,
) -> Seq<u8> {
    let total = 20 + payload.len();
    let sum = internet_checksum(ipv4_header(src, dst, protocol, total, 0));
    ipv4_header(src, dst, protocol, total, sum) + payload
}

impl<'a> Ipv4Packet<'a> {
    /// Parses an IPv4 header, verifying version, length and checksum.
    pub fn parse(bytes: &'a [u8]) -> (r: Result<Self, &'static str>)
        ensures
            match r {
                Ok(packet) => ipv4_fault(bytes@) is None && packet@ == ipv4_fields(bytes@),
                Err(e) => ipv4_fault(bytes@) == Some(e@),
            },
    {
        if bytes.len() < 20 {
            return Err("ipv4: too short");
        }
        let first: u8 = bytes[0];
        assert(first >> 4 == first / 16 && first & 0xF == first % 16) by (bit_vector);
        if first >> 4 != 4 {
            return Err("ipv4: not version 4");
        }
        let ihl: usize = (first & 0xF) as usize * 4;
        if ihl < 20 || bytes.len() < ihl {
            return Err("ipv4: bad header length");
        }
        let total: usize = read16(bytes, 2) as usize;
        if total < ihl || total > bytes.len() {
            return Err("ipv4: bad total length");
        }
        let flags_frag: u16 = read16(bytes, 6);
        assert((flags_frag & 0x1FFF != 0 || flags_frag & 0x2000 != 0) == (flags_frag % 0x4000 != 0))
            by (bit_vector);
        if flags_frag & 0x1FFF != 0 || flags_frag & 0x2000 != 0 {
            return Err("ipv4: fragments are not supported");
        }
        let header: &[u8] = &bytes[0..ihl];
        proof {
            lemma_word_sum_bound(header@);
            assert(header@ == bytes@.take(ihl as int));
        }
        if sum_of(header) != 0 {
            return Err("ipv4: bad checksum");
        }
        Ok(
            Ipv4Packet {
                src: read_addr(bytes, 12),
                dst: read_addr(bytes, 16),
                protocol: bytes[9],
                ttl: bytes[8],
                payload: &bytes[ihl..total],
            },
        )
    }

    /// Builds a packet with a 20-byte header around the payload.
    pub fn build(src: Ipv4Addr, dst: Ipv4Addr, protocol: u8, payload: &[u8]) -> (out: Vec<u8>)
        requires
            20 + payload@.len() <= usize::MAX,
        ensures
            out@ == ipv4_bytes(src, dst, protocol, payload@),
    {
        let total: usize = 20 + payload.len();
        let mut out: Vec<u8> = Vec::with_capacity(total);
        out.push(0x45);
        out.push(0);
        push16(&mut out, length16(total));
        push16(&mut out, 0);  // identification
        out.push(0x40);  // don't fragment
        out.push(0);
        out.push(64);  // ttl
        out.push(protocol);
        push16(&mut out, 0);  // checksum placeholder
        push_bytes(&mut out, &src.0);
        push_bytes(&mut out, &dst.0);
        proof {
            lemma_word_sum_bound(out@);
            assert(out@ =~= ipv4_header(src, dst, protocol, total as nat, 0));
        }
        let sum: u16 = sum_of(out.as_slice());
        write16(&mut out, 10, sum);
        assert(out@ =~= ipv4_header(src, dst, protocol, total as nat, sum));
        push_bytes(&mut out, payload);
        out
    }
}

/// The 12-byte pseudo header TCP and UDP take into their checksums.
pub open spec fn pseudo_header_bytes(src: Ipv4Addr, dst: Ipv4Addr, protocol: u8, len: nat) -> Seq<
    u8,
> {
    src.0@ + dst.0@ + seq![0, protocol] + be16_bytes(len16(len))
}

fn pseudo_header(src: Ipv4Addr, dst: Ipv4Addr, protocol: u8, len: usize) -> (p: [u8; 12])
    ensures
        p@ == pseudo_header_bytes(src, dst, protocol, len as nat),
{
    let n: u16 = length16(len);
    let p: [u8; 12] = [
        src.0[0],
        src.0[1],
        src.0[2],
        src.0[3],
        dst.0[0],
        dst.0[1],
        dst.0[2],
        dst.0[3],
        0,
        protocol,
        (n / 0x100) as u8,
        (n % 0x100) as u8,
    ];
    assert(p@ =~= pseudo_header_bytes(src, dst, protocol, len as nat));
    p
}

// ---------------------------------------------------------------- ICMP

#[derive(Debug, Clone, PartialEq, Eq)]
pub struct Icmp<'a> {
    pub kind: u8,
    pub code: u8,
    /// identifier and sequence number of an echo
    pub rest: &'a [u8],
    pub payload: &'a [u8],
}

/// The contents of an ICMP message.
pub struct IcmpView {
    pub kind: u8,
    pub code: u8,
    pub rest: Seq<u8>,
    pub payload: Seq<u8>,
}

impl<'a> View for Icmp<'a> {
    type V = IcmpView;

    open spec fn view(&self) -> IcmpView {
        IcmpView {
            kind: self.kind,
            code: self.code,
            rest: self.rest@,
            payload: self.payload@,
        }
    }
}

/// Why an ICMP message is rejected, or `None` if it is accepted.
pub open spec fn icmp_fault(b: Seq<u8>) -> Option<Seq<char>> {
    if b.len() < 8 {
        Some("icmp: too short"@)
    } else if internet_checksum(b) != 0 {
        Some("icmp: bad checksum"@)
    } else {
        None
    }
}

/// What an accepted ICMP message holds.
pub open spec fn icmp_fields(b: Seq<u8>) -> IcmpView {
    IcmpView { kind: b[0], code: b[1], rest: b.subrange(4, 8), payload: b.skip(8) }
}

/// An ICMP message with the given checksum field.
pub open spec fn icmp_message(
    kind: u8,
    code: u8,
    sum: u16,
    rest: Seq<u8>,
    payload: Seq<u8>,
) -> Seq<u8> {
    seq![kind, code] + be16_bytes(sum) + rest + payload
}

/// The ICMP message built from its parts.
pub open spec fn icmp_bytes(kind: u8, code: u8, rest: Seq<u8>, payload: Seq<u8>) -> Seq<u8> {
    icmp_message(
        kind,
        code,
        internet_checksum(icmp_message(kind, code, 0, rest, payload)),
        rest,
        payload,
    )
}

impl<'a> Icmp<'a> {
    pub fn parse(bytes: &'a [u8]) -> (r: Result<Self, &'static str>)
        requires
            word_sum(bytes@) <= u32::MAX,
        ensures
            match r {
                Ok(icmp) => icmp_fault(bytes@) is None && icmp@ == icmp_fields(bytes@),
                Err(e) => icmp_fault(bytes@) == Some(e@),
            },
    {
        if bytes.len() < 8 {
            return Err("icmp: too short");
        }
        if sum_of(bytes) != 0 {
            return Err("icmp: bad checksum");
        }
        let icmp = Icmp {
            kind: bytes[0],
            code: bytes[1],
            rest: &bytes[4..8],
            payload: &bytes[8..bytes.len()],
        };
        assert(icmp.payload@ =~= bytes@.skip(8));
        Ok(icmp)
    }

    pub fn build(kind: u8, code: u8, rest: &[u8; 4], payload: &[u8]) -> (out: Vec<u8>)
        requires
            word_sum(icmp_message(kind, code, 0, rest@, payload@)) <= u32::MAX,
        ensures
            out@ == icmp_bytes(kind, code, rest@, payload@),
    {
        let mut out: Vec<u8> = Vec::new();
        out.push(kind);
        out.push(code);
        push16(&mut out, 0);
        push_bytes(&mut out, rest);
        push_bytes(&mut out, payload);
        assert(out@ =~= icmp_message(kind, code, 0, rest@, payload@));
        let sum: u16 = sum_of(out.as_slice());
        write16(&mut out, 2, sum);
        assert(out@ =~= icmp_message(kind, code, sum, rest@, payload@));
        out
    }
}

// ---------------------------------------------------------------- UDP

#[derive(Debug, Clone, PartialEq, Eq)]
pub struct Udp<'a> {
    pub src_port: u16,
    pub dst_port: u16,
    pub payload: &'a [u8],
}

/// The contents of a UDP datagram.
pub struct UdpView {
    pub src_port: u16,
    pub dst_port: u16,
    pub payload: Seq<u8>,
}

impl<'a> View for Udp<'a> {
    type V = UdpView;

    open spec fn view(&self) -> UdpView {
        UdpView { src_port: self.src_port, dst_port: self.dst_port, payload: self.payload@ }
    }
}

/// Why a datagram is rejected, or `None` if it is accepted. A zero checksum
/// field says that the sender did not compute one.
pub open spec fn udp_fault(src: Ipv4Addr, dst: Ipv4Addr, b: Seq<u8>) -> Option<Seq<char>> {
    if b.len() < 8 {
        Some("udp: too short"@)
    } else if be16(b, 4) < 8 || be16(b, 4) > b.len() {
        Some("udp: bad length"@)
    } else if be16(b, 6) != 0 && internet_checksum(
        pseudo_header_bytes(src, dst, PROTO_UDP, be16(b, 4) as nat) + b.take(be16(b, 4) as int),
    ) != 0 {
        Some("udp: bad checksum"@)
    } else {
        None
    }
}

/// What an accepted datagram holds.
pub open spec fn udp_fields(b: Seq<u8>) -> UdpView {
    UdpView {
        src_port: be16(b, 0),
        dst_port: be16(b, 2),
        payload: b.subrange(8, be16(b, 4) as int),
    }
}

/// A datagram with the given checksum field.
pub open spec fn udp_datagram(src_port: u16, dst_port: u16, sum: u16, payload: Seq<u8>) -> Seq<u8> {
    be16_bytes(src_port) + be16_bytes(dst_port) + be16_bytes(len16(8 + payload.len()))
        + be16_bytes(sum) + payload
}

/// What the checksum of a datagram covers while its own field is zero.
pub open spec fn udp_summed(
    src: Ipv4Addr,
    dst: Ipv4Addr,
    src_port: u16,
    dst_port: u16,
    payload: Seq<u8>,
) -> Seq<u8> {
    pseudo_header_bytes(src, dst, PROTO_UDP, 8 + payload.len()) + udp_datagram(
        src_port,
        dst_port,
        0,
        payload,
    )
}

/// The checksum field of a datagram: never zero, which would mean "none".
pub open spec fn udp_checksum_field(sum: u16) -> u16 {
    if sum == 0 {
        0xFFFF
    } else {
        sum
    }
}

/// The datagram built around a payload.
pub open spec fn udp_bytes(
    src: Ipv4Addr,
    dst: Ipv4Addr,
    src_port: u16,
    dst_port: u16,
    payload: Seq<u8>,
) -> Seq<u8> {
    let sum = internet_checksum(udp_summed(src, dst, src_port, dst_port, payload));
    udp_datagram(src_port, dst_port, udp_checksum_field(sum), payload)
}

impl<'a> Udp<'a> {
    pub fn parse(src: Ipv4Addr, dst: Ipv4Addr, bytes: &'a [u8]) -> (r: Result<Self, &'static str>)
        ensures
            match r {
                Ok(udp) => udp_fault(src, dst, bytes@) is None && udp@ == udp_fields(bytes@),
                Err(e) => udp_fault(src, dst, bytes@) == Some(e@),
            },
    {
        if bytes.len() < 8 {
            return Err("udp: too short");
        }
        let len: usize = read16(bytes, 4) as usize;
        if len < 8 || len > bytes.len() {
            return Err("udp: bad length");
        }
        let sum: u16 = read16(bytes, 6);
        if sum != 0 {
            let pseudo: [u8; 12] = pseudo_header(src, dst, PROTO_UDP, len);
            let datagram: &[u8] = &bytes[0..len];
            proof {
                lemma_word_sum_bound(pseudo@ + datagram@);
                assert(datagram@ == bytes@.take(len as int));
            }
            if sum_of_two(&pseudo, datagram) != 0 {
                return Err("udp: bad checksum");
            }
        }
        Ok(
            Udp {
                src_port: read16(bytes, 0),
                dst_port: read16(bytes, 2),
                payload: &bytes[8..len],
            },
        )
    }

    pub fn build(
        src: Ipv4Addr,
        dst: Ipv4Addr,
        src_port: u16,
        dst_port: u16,
        payload: &[u8],
    ) -> (out: Vec<u8>)
        requires
            8 + payload@.len() <= usize::MAX,
            word_sum(udp_summed(src, dst, src_port, dst_port, payload@)) <= u32::MAX,
        ensures
            out@ == udp_bytes(src, dst, src_port, dst_port, payload@),
    {
        let len: usize = 8 + payload.len();
        let mut out: Vec<u8> = Vec::with_capacity(len);
        push16(&mut out, src_port);
        push16(&mut out, dst_port);
        push16(&mut out, length16(len));
        push16(&mut out, 0);
        push_bytes(&mut out, payload);
        let pseudo: [u8; 12] = pseudo_header(src, dst, PROTO_UDP, len);
        assert(out@ =~= udp_datagram(src_port, dst_port, 0, payload@));
        let mut sum: u16 = sum_of_two(&pseudo, out.as_slice());
        if sum == 0 {
            sum = 0xFFFF;
        }
        write16(&mut out, 6, sum);
        assert(out@ =~= udp_datagram(src_port, dst_port, sum, payload@));
        out
    }
}

// ---------------------------------------------------------------- TCP

#[derive(Debug, Clone, PartialEq, Eq)]
pub struct TcpSegment<'a> {
    pub src_port: u16,
    pub dst_port: u16,
    pub seq: u32,
    pub ack: u32,
    pub flags: u8,
    pub window: u16,
    pub payload: &'a [u8],
}

/// The contents of a TCP segment.
pub struct TcpView {
    pub src_port: u16,
    pub dst_port: u16,
    pub seq: u32,
    pub ack: u32,
    pub flags: u8,
    pub window: u16,
    pub payload: Seq<u8>,
}

impl<'a> View for TcpSegment<'a> {
    type V = TcpView;

    open spec fn view(&self) -> TcpView {
        TcpView {
            src_port: self.src_port,
            dst_port: self.dst_port,
            seq: self.seq,
            ack: self.ack,
            flags: self.flags,
            window: self.window,
            payload: self.payload@,
        }
    }
}

/// Whether any bit of `flag` is set in `flags`.
pub open spec fn flag_set(flags: u8, flag: u8) -> bool {
    flags & flag != 0
}

impl TcpView {
    pub open spec fn has(self, flag: u8) -> bool {
        flag_set(self.flags, flag)
    }
}

/// The length of the header that a segment announces.
pub open spec fn tcp_data_offset(b: Seq<u8>) -> int {
    b[12] / 16 * 4
}

/// Whether a segment is long enough for a header, and for the header that it
/// announces.
pub open spec fn tcp_header_fits(b: Seq<u8>) -> bool {
    b.len() >= 20 && 20 <= tcp_data_offset(b) <= b.len()
}

/// What the checksum of a segment covers.
pub open spec fn tcp_summed(src: Ipv4Addr, dst: Ipv4Addr, b: Seq<u8>) -> Seq<u8> {
    pseudo_header_bytes(src, dst, PROTO_TCP, b.len()) + b
}

/// Why a segment is rejected, or `None` if it is accepted.
pub open spec fn tcp_fault(src: Ipv4Addr, dst: Ipv4Addr, b: Seq<u8>) -> Option<Seq<char>> {
    if b.len() < 20 {
        Some("tcp: too short"@)
    } else if !tcp_header_fits(b) {
        Some("tcp: bad data offset"@)
    } else if internet_checksum(tcp_summed(src, dst, b)) != 0 {
        Some("tcp: bad checksum"@)
    } else {
        None
    }
}

/// What an accepted segment holds.
pub open spec fn tcp_fields(b: Seq<u8>) -> TcpView {
    TcpView {
        src_port: be16(b, 0),
        dst_port: be16(b, 2),
        seq: be32(b, 4),
        ack: be32(b, 8),
        flags: b[13],
        window: be16(b, 14),
        payload: b.skip(tcp_data_offset(b)),
    }
}

/// The options of a segment: a SYN announces a maximum segment size of 1200.
pub open spec fn tcp_options(flags: u8) -> Seq<u8> {
    if flag_set(flags, SYN) {
        seq![2, 4, 0x04, 0xB0]
    } else {
        Seq::empty()
    }
}

/// A segment with the given checksum field.
pub open spec fn tcp_segment(t: TcpView, sum: u16) -> Seq<u8> {
    be16_bytes(t.src_port) + be16_bytes(t.dst_port) + be32_bytes(t.seq) + be32_bytes(t.ack) + seq![
        ((20 + tcp_options(t.flags).len()) / 4 * 16) as u8,
        t.flags,
    ] + be16_bytes(t.window) + be16_bytes(sum) + seq![0, 0] + tcp_options(t.flags) + t.payload
}

/// The segment built from its parts.
pub open spec fn tcp_bytes(src: Ipv4Addr, dst: Ipv4Addr, t: TcpView) -> Seq<u8> {
    tcp_segment(t, internet_checksum(tcp_summed(src, dst, tcp_segment(t, 0))))
}

impl<'a> TcpSegment<'a> {
    pub fn parse(src: Ipv4Addr, dst: Ipv4Addr, bytes: &'a [u8]) -> (r: Result<Self, &'static str>)
        requires
            tcp_header_fits(bytes@) ==> word_sum(tcp_summed(src, dst, bytes@)) <= u32::MAX,
        ensures
            match r {
                Ok(seg) => tcp_fault(src, dst, bytes@) is None && seg@ == tcp_fields(bytes@),
                Err(e) => tcp_fault(src, dst, bytes@) == Some(e@),
            },
    {
        if bytes.len() < 20 {
            return Err("tcp: too short");
        }
        let b12: u8 = bytes[12];
        assert(b12 >> 4 == b12 / 16) by (bit_vector);
        let offset: usize = (b12 >> 4) as usize * 4;
        if offset < 20 || offset > bytes.len() {
            return Err("tcp: bad data offset");
        }
        let pseudo: [u8; 12] = pseudo_header(src, dst, PROTO_TCP, bytes.len());
        if sum_of_two(&pseudo, bytes) != 0 {
            return Err("tcp: bad checksum");
        }
        let seg = TcpSegment {
            src_port: read16(bytes, 0),
            dst_port: read16(bytes, 2),
            seq: read32(bytes, 4),
            ack: read32(bytes, 8),
            flags: bytes[13],
            window: read16(bytes, 14),
            payload: &bytes[offset..bytes.len()],
        };
        assert(seg.payload@ =~= bytes@.skip(offset as int));
        Ok(seg)
    }

    pub fn has(&self, flag: u8) -> (set: bool)
        ensures
            set == self@.has(flag),
    {
        self.flags & flag != 0
    }

    /// Builds a segment with a 20-byte header (an MSS option is added on SYNs).
    pub fn build(
        src: Ipv4Addr,
        dst: Ipv4Addr,
        src_port: u16,
        dst_port: u16,
        seq: u32,
        ack: u32,
        flags: u8,
        window: u16,
        payload: &[u8],
    ) -> (out: Vec<u8>)
        requires
            20 + tcp_options(flags).len() + payload@.len() <= usize::MAX,
            word_sum(
                tcp_summed(
                    src,
                    dst,
                    tcp_segment(
                        TcpView {
                            src_port,
                            dst_port,
                            seq,
                            ack,
                            flags,
                            window,
                            payload: payload@,
                        },
                        0,
                    ),
                ),
            ) <= u32::MAX,
        ensures
            out@ == tcp_bytes(
                src,
                dst,
                TcpView { src_port, dst_port, seq, ack, flags, window, payload: payload@ },
            ),
    {
        let ghost t = TcpView {
            src_port,
            dst_port,
            seq,
            ack,
            flags,
            window,
            payload: payload@,
        };
        let syn: bool = flags & SYN != 0;
        let header_len: usize = if syn {
            24
        } else {
            20
        };
        let mut out: Vec<u8> = Vec::with_capacity(header_len + payload.len());
        push16(&mut out, src_port);
        push16(&mut out, dst_port);
        push32(&mut out, seq);
        push32(&mut out, ack);
        out.push((header_len / 4 * 16) as u8);
        out.push(flags);
        push16(&mut out, window);
        push32(&mut out, 0);  // checksum, urgent pointer
        if syn {
            // MSS 1200
            out.push(2);
            out.push(4);
            out.push(0x04);
            out.push(0xB0);
        }
        push_bytes(&mut out, payload);
        assert(out@ =~= tcp_segment(t, 0));
        let pseudo: [u8; 12] = pseudo_header(src, dst, PROTO_TCP, out.len());
        let sum: u16 = sum_of_two(&pseudo, out.as_slice());
        write16(&mut out, 16, sum);
        assert(out@ =~= tcp_segment(t, sum));
        out
    }
}

} // verus!
