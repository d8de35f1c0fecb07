use rustnet::packet::{
    checksum, Icmp, Ipv4Addr, Ipv4Packet, TcpSegment, Udp, ACK, FIN, PROTO_UDP, PSH, SYN,
};

#[test]
fn checksum_matches_rfc1071_example() {
    // the classic example: 0x0001 0xf203 0xf4f5 0xf6f7 -> sum 0xddf2, checksum 0x220d
    let data = [0x00, 0x01, 0xf2, 0x03, 0xf4, 0xf5, 0xf6, 0xf7];
    assert_eq!(checksum(&[&data]), 0x220d);
    assert_eq!(checksum(&[&data[..3], &data[3..]]), 0x220d, "chunk boundaries do not matter");
    assert_eq!(checksum(&[&[0x00, 0x01, 0xf2], &[0x03, 0xf4, 0xf5, 0xf6, 0xf7]]), 0x220d);
}

#[test]
fn ipv4_round_trip_and_validation() {
    let src = Ipv4Addr::new(10, 0, 0, 1);
    let dst = Ipv4Addr::new(10, 0, 0, 2);
    let packet = Ipv4Packet::build(src, dst, PROTO_UDP, b"hello");
    let parsed = Ipv4Packet::parse(&packet).unwrap();
    assert_eq!(parsed.src, src);
    assert_eq!(parsed.dst, dst);
    assert_eq!(parsed.protocol, PROTO_UDP);
    assert_eq!(parsed.payload, b"hello");
    assert_eq!(checksum(&[&packet[..20]]), 0, "header checksum verifies");
    let mut corrupted = packet.clone();
    corrupted[15] ^= 1;
    assert_eq!(Ipv4Packet::parse(&corrupted), Err("ipv4: bad checksum"));
    assert!(Ipv4Packet::parse(&packet[..10]).is_err());
    assert_eq!(Ipv4Addr::parse("192.168.1.10"), Some(Ipv4Addr::new(192, 168, 1, 10)));
    assert_eq!(Ipv4Addr::parse("1.2.3"), None);
    assert_eq!(dst.to_string(), "10.0.0.2");
}

#[test]
fn icmp_udp_tcp_round_trips() {
    let src = Ipv4Addr::new(10, 0, 0, 1);
    let dst = Ipv4Addr::new(10, 0, 0, 2);
    let icmp = Icmp::build(8, 0, &[1, 2, 3, 4], b"ping");
    let parsed = Icmp::parse(&icmp).unwrap();
    assert_eq!(
        (parsed.kind, parsed.code, parsed.rest, parsed.payload),
        (8, 0, &[1u8, 2, 3, 4][..], &b"ping"[..])
    );

    let udp = Udp::build(src, dst, 1234, 7, b"echo me");
    let parsed = Udp::parse(src, dst, &udp).unwrap();
    assert_eq!((parsed.src_port, parsed.dst_port, parsed.payload), (1234, 7, &b"echo me"[..]));
    let other = Ipv4Addr::new(10, 0, 0, 3);
    assert_eq!(
        Udp::parse(src, other, &udp),
        Err("udp: bad checksum"),
        "pseudo header is part of the checksum"
    );

    let tcp = TcpSegment::build(src, dst, 40000, 80, 1000, 2000, SYN | ACK, 65535, b"");
    let parsed = TcpSegment::parse(src, dst, &tcp).unwrap();
    assert_eq!((parsed.src_port, parsed.dst_port, parsed.seq, parsed.ack), (40000, 80, 1000, 2000));
    assert!(parsed.has(SYN) && parsed.has(ACK) && !parsed.has(FIN));
    assert_eq!(tcp.len(), 24, "syn carries the mss option");
    let data = TcpSegment::build(src, dst, 1, 2, 3, 4, ACK | PSH, 100, b"payload");
    assert_eq!(TcpSegment::parse(src, dst, &data).unwrap().payload, b"payload");
}
