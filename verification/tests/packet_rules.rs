use rustnet::packet::{
    checksum, Icmp, Ipv4Addr, Ipv4Packet, TcpSegment, Udp, ACK, PROTO_ICMP, PROTO_TCP, PROTO_UDP, PSH, SYN,
};

const A: Ipv4Addr = Ipv4Addr([10, 0, 0, 1]);
const B: Ipv4Addr = Ipv4Addr([10, 0, 0, 2]);

/// Writes the right header checksum into an IPv4 packet.
fn seal(packet: &mut Vec<u8>, header_len: usize) {
    packet[10] = 0;
    packet[11] = 0;
    let sum = checksum(&[&packet[..header_len]]);
    packet[10] = (sum >> 8) as u8;
    packet[11] = sum as u8;
}

#[test]
fn an_ipv4_packet_byte_by_byte() {
    let packet = Ipv4Packet::build(A, B, PROTO_ICMP, &[0xAA, 0xBB]);
    assert_eq!(
        packet,
        vec![
            0x45, 0, 0, 22, 0, 0, 0x40, 0, 64, 1, 0x26, 0xE5, 10, 0, 0, 1, 10, 0, 0, 2, 0xAA, 0xBB
        ]
    );
    let parsed = Ipv4Packet::parse(&packet).unwrap();
    assert_eq!(parsed.ttl, 64);
    assert_eq!(parsed.payload, [0xAA, 0xBB]);
}

#[test]
fn every_complaint_about_an_ipv4_packet() {
    let good = Ipv4Packet::build(A, B, PROTO_UDP, b"hello");
    assert_eq!(Ipv4Packet::parse(&good[..19]), Err("ipv4: too short"));
    assert_eq!(Ipv4Packet::parse(&[]), Err("ipv4: too short"));

    let mut p = good.clone();
    p[0] = 0x65;
    assert_eq!(Ipv4Packet::parse(&p), Err("ipv4: not version 4"));

    p = good.clone();
    p[0] = 0x44;
    assert_eq!(Ipv4Packet::parse(&p), Err("ipv4: bad header length"));
    p[0] = 0x4F;
    assert_eq!(Ipv4Packet::parse(&p), Err("ipv4: bad header length"));

    p = good.clone();
    p[3] = 19;
    assert_eq!(Ipv4Packet::parse(&p), Err("ipv4: bad total length"));
    p[3] = 26;
    assert_eq!(Ipv4Packet::parse(&p), Err("ipv4: bad total length"));

    p = good.clone();
    p[6] = 0x20; // more fragments
    seal(&mut p, 20);
    assert_eq!(Ipv4Packet::parse(&p), Err("ipv4: fragments are not supported"));
    p[6] = 0;
    p[7] = 1; // an offset
    seal(&mut p, 20);
    assert_eq!(Ipv4Packet::parse(&p), Err("ipv4: fragments are not supported"));

    p = good.clone();
    p[8] = 63;
    assert_eq!(Ipv4Packet::parse(&p), Err("ipv4: bad checksum"));
}

#[test]
fn header_options_and_padding_are_skipped() {
    let plain = Ipv4Packet::build(A, B, PROTO_UDP, b"hello");
    let mut p: Vec<u8> = plain[..20].to_vec();
    p.extend_from_slice(&[1, 1, 1, 0]); // options
    p.extend_from_slice(b"hello");
    p.extend_from_slice(b"padding");
    p[0] = 0x46;
    p[3] = 29;
    seal(&mut p, 24);
    assert_eq!(Ipv4Packet::parse(&p).unwrap().payload, b"hello");
}

#[test]
fn truncated_ipv4_packets_are_rejected() {
    let good = Ipv4Packet::build(A, B, PROTO_UDP, b"hello");
    for n in 0..good.len() {
        assert!(Ipv4Packet::parse(&good[..n]).is_err());
    }
}

#[test]
fn damaged_ipv4_headers_are_rejected() {
    let good = Ipv4Packet::build(A, B, PROTO_UDP, b"hello");
    for i in 1..20 {
        for v in 0..=255u8 {
            if v != good[i] {
                let mut p = good.clone();
                p[i] = v;
                assert!(Ipv4Packet::parse(&p).is_err());
            }
        }
    }
}

#[test]
fn ipv4_packets_read_back_at_every_size() {
    for n in [0usize, 1, 2, 1199, 1200, 65514, 65515] {
        let payload = vec![0x5Au8; n];
        let packet = Ipv4Packet::build(B, A, PROTO_TCP, &payload);
        let parsed = Ipv4Packet::parse(&packet).unwrap();
        assert_eq!((parsed.src, parsed.dst, parsed.protocol), (B, A, PROTO_TCP));
        assert_eq!(parsed.payload, &payload[..]);
    }
}

#[test]
fn an_icmp_message_byte_by_byte() {
    let message = Icmp::build(8, 0, &[0, 1, 0, 2], b"hi");
    assert_eq!(message, vec![8, 0, 0x8F, 0x93, 0, 1, 0, 2, b'h', b'i']);
    assert_eq!(checksum(&[&message]), 0);
}

#[test]
fn every_complaint_about_an_icmp_message() {
    let good = Icmp::build(8, 0, &[0, 1, 0, 2], b"hi");
    assert_eq!(Icmp::parse(&good[..7]), Err("icmp: too short"));
    for i in 0..good.len() {
        let mut p = good.clone();
        p[i] ^= 0x40;
        assert_eq!(Icmp::parse(&p), Err("icmp: bad checksum"));
    }
    let parsed = Icmp::parse(&good).unwrap();
    assert_eq!((parsed.kind, parsed.code, parsed.rest, parsed.payload), (8, 0, &[0u8, 1, 0, 2][..], &b"hi"[..]));
}

#[test]
fn a_udp_datagram_byte_by_byte() {
    let datagram = Udp::build(A, B, 1, 2, &[3]);
    // pseudo header 0a00 0001 0a00 0002 0011 0009, then 0001 0002 0009 0300
    assert_eq!(datagram, vec![0, 1, 0, 2, 0, 9, 0xE8, 0xD6, 3]);
    let parsed = Udp::parse(A, B, &datagram).unwrap();
    assert_eq!((parsed.src_port, parsed.dst_port, parsed.payload), (1, 2, &[3u8][..]));
}

#[test]
fn every_complaint_about_a_udp_datagram() {
    let good = Udp::build(A, B, 1234, 7, b"echo me");
    assert_eq!(Udp::parse(A, B, &good[..7]), Err("udp: too short"));
    let mut p = good.clone();
    p[5] = 7;
    assert_eq!(Udp::parse(A, B, &p), Err("udp: bad length"));
    p[5] = 16;
    assert_eq!(Udp::parse(A, B, &p), Err("udp: bad length"));
    p = good.clone();
    p[9] ^= 1;
    assert_eq!(Udp::parse(A, B, &p), Err("udp: bad checksum"));
    for n in 0..good.len() {
        assert!(Udp::parse(A, B, &good[..n]).is_err());
    }
}

#[test]
fn a_udp_datagram_may_go_without_a_checksum() {
    let mut p = Udp::build(A, B, 1234, 7, b"echo me");
    p[6] = 0;
    p[7] = 0;
    p[9] ^= 1;
    assert_eq!(Udp::parse(A, B, &p).unwrap().payload[1], b'c' ^ 1);
}

#[test]
fn a_zero_udp_checksum_is_sent_as_all_ones() {
    let base = Udp::build(A, B, 1, 2, &[0, 0]);
    let datagram = Udp::build(A, B, 1, 2, &base[6..8]);
    assert_eq!(&datagram[6..8], &[0xFF, 0xFF]);
    assert_eq!(Udp::parse(A, B, &datagram).unwrap().payload, &base[6..8]);
}

#[test]
fn bytes_after_a_udp_datagram_are_ignored() {
    let mut p = Udp::build(A, B, 1234, 7, b"echo me");
    p.extend_from_slice(b"padding");
    assert_eq!(Udp::parse(A, B, &p).unwrap().payload, b"echo me");
}

#[test]
fn a_tcp_segment_byte_by_byte() {
    let segment = TcpSegment::build(A, B, 1, 2, 0x01020304, 0x05060708, SYN, 0x1000, &[]);
    assert_eq!(segment.len(), 24);
    assert_eq!(&segment[..16], &[0, 1, 0, 2, 1, 2, 3, 4, 5, 6, 7, 8, 0x60, SYN, 0x10, 0]);
    assert_eq!(&segment[18..], &[0, 0, 2, 4, 0x04, 0xB0]);
    let data = TcpSegment::build(A, B, 1, 2, 3, 4, ACK | PSH, 5, b"x");
    assert_eq!(data[12], 0x50);
    assert_eq!(data.len(), 21);
}

#[test]
fn every_complaint_about_a_tcp_segment() {
    let good = TcpSegment::build(A, B, 1, 2, 3, 4, ACK | PSH, 100, b"payload");
    assert_eq!(TcpSegment::parse(A, B, &good[..19]), Err("tcp: too short"));
    let mut p = good.clone();
    p[12] = 0x40;
    assert_eq!(TcpSegment::parse(A, B, &p), Err("tcp: bad data offset"));
    p[12] = 0xF0;
    assert_eq!(TcpSegment::parse(A, B, &p), Err("tcp: bad data offset"));
    for i in 0..good.len() {
        let mut p = good.clone();
        p[i] ^= 0x04;
        assert!(TcpSegment::parse(A, B, &p).is_err());
    }
    p = good.clone();
    p[20] ^= 1;
    assert_eq!(TcpSegment::parse(A, B, &p), Err("tcp: bad checksum"));
}

#[test]
fn a_tcp_segment_reads_back() {
    for flags in 0..64u8 {
        for payload in [&b""[..], &b"x"[..], &b"some more data"[..]] {
            let b = TcpSegment::build(A, B, 40000, 80, u32::MAX, 0x8000_0000, flags, 65535, payload);
            let s = TcpSegment::parse(A, B, &b).unwrap();
            assert_eq!((s.src_port, s.dst_port, s.seq, s.ack), (40000, 80, u32::MAX, 0x8000_0000));
            assert_eq!((s.flags, s.window, s.payload), (flags, 65535, payload));
        }
    }
}

#[test]
fn segments_and_datagrams_are_tied_to_their_addresses() {
    let tcp = TcpSegment::build(A, B, 1, 2, 3, 4, ACK, 100, b"payload");
    let udp = Udp::build(A, B, 1, 2, b"payload");
    for i in 0..4 {
        let mut other = B;
        other.0[i] ^= 0x10;
        assert_eq!(TcpSegment::parse(A, other, &tcp), Err("tcp: bad checksum"));
        assert_eq!(Udp::parse(A, other, &udp), Err("udp: bad checksum"));
    }
}

#[test]
fn addresses_as_text() {
    assert_eq!(Ipv4Addr::parse("0.0.0.0"), Some(Ipv4Addr::new(0, 0, 0, 0)));
    assert_eq!(Ipv4Addr::parse("255.255.255.255"), Some(Ipv4Addr::new(255, 255, 255, 255)));
    assert_eq!(Ipv4Addr::parse("+1.002.3.4"), Some(Ipv4Addr::new(1, 2, 3, 4)));
    for bad in [
        "", ".", "...", "1.2.3", "1.2.3.4.5", "1..2.3", "1.2.3.", "256.1.1.1", "1.2.3.1000", "a.b.c.d", "-1.2.3.4",
        " 1.2.3.4", "1.2.3.4 ", "+.1.2.3", "1.2.3.99999999999999999999",
    ] {
        assert_eq!(Ipv4Addr::parse(bad), None, "{bad}");
    }
    for a in [Ipv4Addr::new(1, 20, 255, 0), Ipv4Addr::new(192, 168, 1, 10), Ipv4Addr::new(9, 10, 99, 100)] {
        assert_eq!(Ipv4Addr::parse(&a.to_string()), Some(a));
    }
    assert_eq!(Ipv4Addr::new(192, 168, 1, 10).to_string(), "192.168.1.10");
    assert!(A.same_as(&A) && !A.same_as(&B));
}
