use rustnet::packet::{
    Icmp, Ipv4Addr, Ipv4Packet, TcpSegment, Udp, ACK, FIN, PROTO_ICMP, PROTO_TCP, PROTO_UDP, PSH, RST, SYN,
};
use rustnet::stack::Stack;
use rustnet::tcp::State;

const HOST: Ipv4Addr = Ipv4Addr([10, 0, 0, 1]);
const US: Ipv4Addr = Ipv4Addr([10, 0, 0, 2]);

#[test]
fn answers_pings() {
    let mut s = Stack::new(US);
    let request = Icmp::build(8, 0, &[0xAB, 0xCD, 0, 1], b"abcdefgh");
    let out = s.handle(&Ipv4Packet::build(HOST, US, PROTO_ICMP, &request), 0);
    assert_eq!(out.len(), 1);
    let ip = Ipv4Packet::parse(&out[0]).unwrap();
    assert_eq!((ip.src, ip.dst, ip.protocol), (US, HOST, PROTO_ICMP));
    let reply = Icmp::parse(ip.payload).unwrap();
    assert_eq!((reply.kind, reply.rest, reply.payload), (0, &[0xAB, 0xCD, 0, 1][..], &b"abcdefgh"[..]));
    // packets for other hosts and corrupt packets are ignored
    assert!(s
        .handle(&Ipv4Packet::build(HOST, Ipv4Addr::new(10, 0, 0, 9), PROTO_ICMP, &request), 0)
        .is_empty());
    assert!(s.handle(b"garbage", 0).is_empty());
}

#[test]
fn udp_echo_and_port_unreachable() {
    let mut s = Stack::new(US);
    let dgram = Udp::build(HOST, US, 4444, 7, b"echo");
    let out = s.handle(&Ipv4Packet::build(HOST, US, PROTO_UDP, &dgram), 0);
    let ip = Ipv4Packet::parse(&out[0]).unwrap();
    let udp = Udp::parse(ip.src, ip.dst, ip.payload).unwrap();
    assert_eq!((udp.src_port, udp.dst_port, udp.payload), (7, 4444, &b"echo"[..]));
    let closed = Udp::build(HOST, US, 4444, 9999, b"x");
    let out = s.handle(&Ipv4Packet::build(HOST, US, PROTO_UDP, &closed), 0);
    let ip = Ipv4Packet::parse(&out[0]).unwrap();
    assert_eq!(ip.protocol, PROTO_ICMP);
    let icmp = Icmp::parse(ip.payload).unwrap();
    assert_eq!((icmp.kind, icmp.code), (3, 3));
}

/// Drives a full TCP exchange through the stack as a client would.
#[test]
fn tcp_echo_through_the_stack() {
    let mut s = Stack::new(US);
    let syn = TcpSegment::build(HOST, US, 5555, 7, 100, 0, SYN, 65535, &[]);
    let out = s.handle(&Ipv4Packet::build(HOST, US, PROTO_TCP, &syn), 0);
    let ip = Ipv4Packet::parse(&out[0]).unwrap();
    let syn_ack = TcpSegment::parse(ip.src, ip.dst, ip.payload).unwrap();
    assert!(syn_ack.has(SYN) && syn_ack.has(ACK));
    assert_eq!(syn_ack.ack, 101);
    let iss = syn_ack.seq;
    assert_eq!(s.connection_state(HOST, 5555, 7), Some(State::SynReceived));

    let ack = TcpSegment::build(HOST, US, 5555, 7, 101, iss + 1, ACK, 65535, &[]);
    assert!(s.handle(&Ipv4Packet::build(HOST, US, PROTO_TCP, &ack), 1).is_empty());
    assert_eq!(s.connection_state(HOST, 5555, 7), Some(State::Established));

    let data = TcpSegment::build(HOST, US, 5555, 7, 101, iss + 1, ACK | PSH, 65535, b"ping");
    let out = s.handle(&Ipv4Packet::build(HOST, US, PROTO_TCP, &data), 2);
    let ip = Ipv4Packet::parse(&out[0]).unwrap();
    let echo = TcpSegment::parse(ip.src, ip.dst, ip.payload).unwrap();
    assert_eq!(echo.payload, b"ping");
    assert_eq!((echo.seq, echo.ack), (iss + 1, 105));

    // close from the client side
    let fin = TcpSegment::build(HOST, US, 5555, 7, 105, iss + 5, ACK | FIN, 65535, &[]);
    let out = s.handle(&Ipv4Packet::build(HOST, US, PROTO_TCP, &fin), 3);
    let last = TcpSegment::parse(US, HOST, Ipv4Packet::parse(out.last().unwrap()).unwrap().payload).unwrap();
    assert!(last.has(FIN));
    let final_ack = TcpSegment::build(HOST, US, 5555, 7, 106, last.seq + 1, ACK, 65535, &[]);
    s.handle(&Ipv4Packet::build(HOST, US, PROTO_TCP, &final_ack), 4);
    assert_eq!(s.connection_count(), 0, "closed connection is removed");
}

#[test]
fn closed_ports_get_a_reset() {
    let mut s = Stack::new(US);
    let syn = TcpSegment::build(HOST, US, 5555, 9999, 100, 0, SYN, 65535, &[]);
    let out = s.handle(&Ipv4Packet::build(HOST, US, PROTO_TCP, &syn), 0);
    let ip = Ipv4Packet::parse(&out[0]).unwrap();
    let rst = TcpSegment::parse(ip.src, ip.dst, ip.payload).unwrap();
    assert!(rst.has(RST) && rst.has(ACK));
    assert_eq!(rst.ack, 101);
    assert_eq!(s.connection_count(), 0);
}

#[test]
fn stack_tick_retransmits() {
    let mut s = Stack::new(US);
    let syn = TcpSegment::build(HOST, US, 5555, 7, 100, 0, SYN, 65535, &[]);
    s.handle(&Ipv4Packet::build(HOST, US, PROTO_TCP, &syn), 0);
    assert!(s.tick(100).is_empty());
    let out = s.tick(1500);
    assert_eq!(out.len(), 1, "the SYN-ACK is retransmitted when the client never answers");
}
