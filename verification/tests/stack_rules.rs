use rustnet::packet::{
    checksum, Icmp, Ipv4Addr, Ipv4Packet, TcpSegment, Udp, ACK, FIN, PROTO_ICMP, PROTO_TCP, PROTO_UDP, PSH, RST, SYN,
};
use rustnet::stack::Stack;
use rustnet::tcp::State;

const THEM: Ipv4Addr = Ipv4Addr([10, 0, 0, 1]);
const OTHER: Ipv4Addr = Ipv4Addr([10, 0, 0, 7]);
const ME: Ipv4Addr = Ipv4Addr([10, 0, 0, 2]);

/// The first initial sequence numbers that a stack gives out.
const ISS: [u32; 2] = [1692860473, 4253197950];

fn tcp(src: Ipv4Addr, src_port: u16, port: u16, seq: u32, ack: u32, flags: u8, data: &[u8]) -> Vec<u8> {
    let segment = TcpSegment::build(src, ME, src_port, port, seq, ack, flags, 65535, data);
    Ipv4Packet::build(src, ME, PROTO_TCP, &segment)
}

fn reply(seq: u32, ack: u32, flags: u8, window: u16, dst: Ipv4Addr, ports: (u16, u16), data: &[u8]) -> Vec<u8> {
    let segment = TcpSegment::build(ME, dst, ports.0, ports.1, seq, ack, flags, window, data);
    Ipv4Packet::build(ME, dst, PROTO_TCP, &segment)
}

/// Opens a connection and returns the next sequence number of the stack.
fn connect(s: &mut Stack, src: Ipv4Addr, src_port: u16, port: u16) -> u32 {
    let out = s.handle(&tcp(src, src_port, port, 100, 0, SYN, b""), 0);
    let packet = Ipv4Packet::parse(&out[0]).unwrap();
    let seq = TcpSegment::parse(ME, src, packet.payload).unwrap().seq;
    assert!(s.handle(&tcp(src, src_port, port, 101, seq.wrapping_add(1), ACK, b""), 0).is_empty());
    assert_eq!(s.connection_state(src, src_port, port), Some(State::Established));
    seq.wrapping_add(1)
}

#[test]
fn a_ping_comes_back_word_for_word() {
    let mut s = Stack::new(ME);
    let ping = Ipv4Packet::build(THEM, ME, PROTO_ICMP, &Icmp::build(8, 0, &[1, 2, 3, 4], b"data"));
    let out = s.handle(&ping, 0);
    assert_eq!(out, vec![Ipv4Packet::build(ME, THEM, PROTO_ICMP, &Icmp::build(0, 0, &[1, 2, 3, 4], b"data"))]);
    assert_eq!(s.log, vec!["ping from 10.0.0.1".to_string()]);
}

#[test]
fn other_icmp_messages_are_not_answered() {
    let mut s = Stack::new(ME);
    for (kind, code) in [(0, 0), (8, 1), (3, 3)] {
        let message = Icmp::build(kind, code, &[0; 4], b"data");
        assert!(s.handle(&Ipv4Packet::build(THEM, ME, PROTO_ICMP, &message), 0).is_empty());
    }
    assert!(s.log.is_empty());
}

#[test]
fn rejected_packets_leave_a_line_in_the_log() {
    let mut s = Stack::new(ME);
    s.handle(b"garbage", 0);
    s.handle(&Ipv4Packet::build(THEM, ME, PROTO_ICMP, b"short"), 0);
    s.handle(&Ipv4Packet::build(THEM, ME, PROTO_UDP, b"short"), 0);
    s.handle(&Ipv4Packet::build(THEM, ME, PROTO_TCP, b"short"), 0);
    s.handle(&Ipv4Packet::build(THEM, ME, 132, b"sctp?"), 0);
    assert_eq!(
        s.log,
        vec![
            "dropped: ipv4: too short".to_string(),
            "dropped: icmp: too short".to_string(),
            "dropped: udp: too short".to_string(),
            "dropped: tcp: too short".to_string(),
            "unsupported protocol 132".to_string(),
        ]
    );
    assert_eq!(s.connection_count(), 0);
}

#[test]
fn packets_for_others_leave_no_trace() {
    let mut s = Stack::new(ME);
    let ping = Icmp::build(8, 0, &[1, 2, 3, 4], b"data");
    assert!(s.handle(&Ipv4Packet::build(THEM, OTHER, PROTO_ICMP, &ping), 0).is_empty());
    assert!(s.log.is_empty());
}

#[test]
fn a_datagram_comes_back_word_for_word() {
    let mut s = Stack::new(ME);
    let out = s.handle(&Ipv4Packet::build(THEM, ME, PROTO_UDP, &Udp::build(THEM, ME, 4444, 7, b"echo")), 0);
    assert_eq!(out, vec![Ipv4Packet::build(ME, THEM, PROTO_UDP, &Udp::build(ME, THEM, 7, 4444, b"echo"))]);
    assert!(s.log.is_empty());
}

#[test]
fn an_unreachable_port_is_reported_with_the_start_of_the_packet() {
    let mut s = Stack::new(ME);
    let datagram = Udp::build(THEM, ME, 4444, 9999, b"anybody?");
    let out = s.handle(&Ipv4Packet::build(THEM, ME, PROTO_UDP, &datagram), 0);
    let start = Ipv4Packet::build(THEM, ME, PROTO_UDP, &datagram[..8]);
    assert_eq!(out, vec![Ipv4Packet::build(ME, THEM, PROTO_ICMP, &Icmp::build(3, 3, &[0; 4], &start))]);
    assert_eq!(s.log, vec!["udp to closed port 9999".to_string()]);
}

#[test]
fn segments_to_nobody_get_a_reset() {
    let mut s = Stack::new(ME);
    // without an acknowledgement: the segment is acknowledged
    let out = s.handle(&tcp(THEM, 5555, 9999, 100, 0, SYN, b"abc"), 0);
    assert_eq!(out, vec![reply(0, 104, RST | ACK, 0, THEM, (9999, 5555), b"")]);
    // with one: the reset carries its number
    let out = s.handle(&tcp(THEM, 5555, 7, 100, 777, ACK, b"abc"), 0);
    assert_eq!(out, vec![reply(777, 0, RST, 0, THEM, (7, 5555), b"")]);
    let out = s.handle(&tcp(THEM, 5555, 7, 100, 777, SYN | ACK, b""), 0);
    assert_eq!(out, vec![reply(777, 0, RST, 0, THEM, (7, 5555), b"")]);
    // a reset is not answered
    assert!(s.handle(&tcp(THEM, 5555, 9999, 100, 0, RST, b""), 0).is_empty());
    assert!(s.log.is_empty());
    assert_eq!(s.connection_count(), 0);
}

#[test]
fn a_syn_opens_a_connection_on_every_port_with_a_service() {
    for port in [7, 80, 8080] {
        let mut s = Stack::new(ME);
        let out = s.handle(&tcp(THEM, 5555, port, 100, 0, SYN, b""), 0);
        assert_eq!(out, vec![reply(ISS[0], 101, SYN | ACK, 16384, THEM, (port, 5555), b"")]);
        assert_eq!(s.connection_state(THEM, 5555, port), Some(State::SynReceived));
        assert_eq!(s.log, vec![format!("connection from 10.0.0.1:5555 to port {port}")]);
        assert_eq!(s.connection_count(), 1);
    }
}

#[test]
fn connections_do_not_disturb_each_other() {
    let mut s = Stack::new(ME);
    let one = connect(&mut s, THEM, 5555, 7);
    assert_eq!(one, ISS[0].wrapping_add(1));
    let two = connect(&mut s, OTHER, 5555, 7);
    assert_eq!(two, ISS[1].wrapping_add(1));
    assert_eq!(s.connection_count(), 2);
    let out = s.handle(&tcp(THEM, 5555, 7, 101, one, ACK | PSH, b"one"), 1);
    assert_eq!(out, vec![reply(one, 104, ACK | PSH, 16384, THEM, (7, 5555), b"one")]);
    s.handle(&tcp(THEM, 5555, 7, 104, one, RST, b""), 2);
    assert_eq!(s.connection_state(THEM, 5555, 7), None);
    assert_eq!(s.connection_state(OTHER, 5555, 7), Some(State::Established));
    assert_eq!(s.connection_state(OTHER, 5555, 80), None);
    let out = s.handle(&tcp(OTHER, 5555, 7, 101, two, ACK | PSH, b"two"), 3);
    assert_eq!(out, vec![reply(two, 104, ACK | PSH, 16384, OTHER, (7, 5555), b"two")]);
}

#[test]
fn a_page_and_a_fin_come_back() {
    let mut s = Stack::new(ME);
    let next = connect(&mut s, THEM, 5555, 80);
    let out = s.handle(&tcp(THEM, 5555, 80, 101, next, ACK | PSH, b"GET / HTTP/1.1\r\n"), 1);
    assert_eq!(out, vec![reply(next, 117, ACK, 16384, THEM, (80, 5555), b"")], "the head is not complete");
    let out = s.handle(&tcp(THEM, 5555, 80, 117, next, ACK | PSH, b"\r\n"), 2);
    let page = rustnet::http::page("GET / HTTP/1.1\r\n\r\n");
    let end = next.wrapping_add(page.len() as u32);
    assert_eq!(
        out,
        vec![
            reply(next, 119, ACK | PSH, 16384, THEM, (80, 5555), &page),
            reply(end, 119, ACK | FIN, 16384, THEM, (80, 5555), b""),
        ]
    );
    assert_eq!(s.connection_state(THEM, 5555, 80), Some(State::FinWait1));
}

#[test]
fn time_serves_every_connection() {
    let mut s = Stack::new(ME);
    let one = connect(&mut s, THEM, 5555, 7);
    let two = connect(&mut s, OTHER, 6666, 7);
    s.handle(&tcp(THEM, 5555, 7, 101, one, ACK, b"one"), 0);
    s.handle(&tcp(OTHER, 6666, 7, 101, two, ACK, b"two"), 0);
    assert!(s.tick(999).is_empty());
    let out = s.tick(1000);
    let first = reply(one, 104, ACK | PSH, 16384, THEM, (7, 5555), b"one");
    let second = reply(two, 104, ACK | PSH, 16384, OTHER, (7, 6666), b"two");
    assert!(out == vec![first.clone(), second.clone()] || out == vec![second, first]);
    // given up on after the sixth repetition, and dropped
    for i in 2..=6u64 {
        assert_eq!(s.tick(i * 1000).len(), 2);
    }
    assert!(s.tick(7000).is_empty());
    assert_eq!(s.connection_count(), 0);
}

#[test]
fn the_configuration_stays() {
    let mut s = Stack::new(ME);
    connect(&mut s, THEM, 5555, 7);
    s.handle(b"garbage", 0);
    s.tick(100);
    assert_eq!(s.addr, ME);
    assert_eq!(s.addr(), ME);
    assert_eq!(s.log(), &s.log);
    assert_eq!(
        s.log,
        vec!["connection from 10.0.0.1:5555 to port 7".to_string(), "dropped: ipv4: too short".to_string()]
    );
}

#[test]
fn the_log_is_taken_out_whole() {
    let mut s = Stack::new(ME);
    let next = connect(&mut s, THEM, 5555, 7);
    assert_eq!(s.take_log(), vec!["connection from 10.0.0.1:5555 to port 7".to_string()]);
    assert!(s.log().is_empty() && s.take_log().is_empty());
    let out = s.handle(&tcp(THEM, 5555, 7, 101, next, ACK, b"hi"), 1);
    assert_eq!(out, vec![reply(next, 103, ACK | PSH, 16384, THEM, (7, 5555), b"hi")]);
}

/// Writes a checksum of bytes into a field of them, which starts out as zero.
fn seal(bytes: &mut [u8], at: usize, pseudo: &[u8]) {
    let sum = checksum(&[pseudo, bytes]);
    bytes[at] = (sum >> 8) as u8;
    bytes[at + 1] = sum as u8;
}

#[test]
fn options_that_we_never_send_are_skipped() {
    // a SYN with eight bytes of options, in a packet with four
    let mut segment = vec![0x15, 0xB3, 0, 7, 0, 0, 0, 100, 0, 0, 0, 0, 0x70, SYN, 0xFF, 0xFF, 0, 0, 0, 0];
    segment.extend_from_slice(&[2, 4, 5, 0xB4, 1, 3, 3, 7]);
    seal(&mut segment, 16, &[10, 0, 0, 1, 10, 0, 0, 2, 0, 6, 0, 28]);
    let mut packet = vec![0x46, 0x10, 0, 52, 0x12, 0x34, 0, 0, 3, 6, 0, 0, 10, 0, 0, 1, 10, 0, 0, 2, 1, 1, 1, 0];
    seal(&mut packet, 10, &[]);
    packet.extend_from_slice(&segment);
    let mut s = Stack::new(ME);
    let out = s.handle(&packet, 0);
    assert_eq!(out, vec![reply(ISS[0], 101, SYN | ACK, 16384, THEM, (7, 5555), b"")]);
    assert_eq!(s.connection_state(THEM, 5555, 7), Some(State::SynReceived));
}

#[test]
fn time_passes_once() {
    let mut s = Stack::new(ME);
    let next = connect(&mut s, THEM, 5555, 7);
    s.handle(&tcp(THEM, 5555, 7, 101, next, ACK, b"hi"), 0);
    assert_eq!(s.tick(1000).len(), 1);
    assert!(s.tick(1000).is_empty());
    assert_eq!(s.tick(2000).len(), 1);
    assert_eq!(s.connection_state(THEM, 5555, 7), Some(State::Established));
}

#[test]
fn no_connection_is_left_waiting_for_a_syn() {
    let mut s = Stack::new(ME);
    // a SYN that is a reset as well opens and closes at once
    assert!(s.handle(&tcp(THEM, 5555, 7, 100, 0, SYN | RST, b""), 0).is_empty());
    assert_eq!(s.connection_count(), 0);
    s.handle(&tcp(THEM, 5555, 7, 100, 0, SYN, b""), 0);
    assert_eq!(s.connection_state(THEM, 5555, 7), Some(State::SynReceived));
}
