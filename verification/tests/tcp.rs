use rustnet::packet::{Ipv4Addr, TcpSegment, ACK, FIN, PSH, RST, SYN};
use rustnet::tcp::{Connection, Echo, Http, Service, State, MAX_RETRIES};

fn seg(seq: u32, ack: u32, flags: u8, payload: &[u8]) -> TcpSegment<'_> {
    TcpSegment {
        src_port: 5000,
        dst_port: 80,
        seq,
        ack,
        flags,
        window: 65535,
        payload,
    }
}

fn conn(service: Box<dyn Service>) -> Connection {
    Connection::new((Ipv4Addr::new(10, 0, 0, 2), 80), (Ipv4Addr::new(10, 0, 0, 1), 5000), 1000, service)
}

fn handshake(c: &mut Connection) {
    let out = c.on_segment(&seg(500, 0, SYN, b""), 0);
    assert_eq!(out.len(), 1);
    assert_eq!(out[0].flags, SYN | ACK);
    assert_eq!((out[0].seq, out[0].ack), (1000, 501));
    assert_eq!(c.state, State::SynReceived);
    let out = c.on_segment(&seg(501, 1001, ACK, b""), 0);
    assert!(out.is_empty());
    assert_eq!(c.state, State::Established);
}

#[test]
fn three_way_handshake_then_echo() {
    let mut c = conn(Box::new(Echo));
    handshake(&mut c);
    let out = c.on_segment(&seg(501, 1001, ACK | PSH, b"hello"), 10);
    assert_eq!(out.len(), 1);
    assert_eq!(out[0].payload, b"hello");
    assert_eq!((out[0].seq, out[0].ack), (1001, 506));
    assert!(out[0].flags & ACK != 0 && out[0].flags & PSH != 0);
    // the peer acknowledges our echo: nothing left in flight
    let out = c.on_segment(&seg(506, 1006, ACK, b""), 20);
    assert!(out.is_empty());
    assert!(c.unacked().is_empty());
}

#[test]
fn out_of_order_data_is_reacked_not_consumed() {
    let mut c = conn(Box::new(Echo));
    handshake(&mut c);
    let out = c.on_segment(&seg(600, 1001, ACK | PSH, b"future"), 10);
    assert_eq!(out.len(), 1);
    assert!(out[0].payload.is_empty());
    assert_eq!(out[0].ack, 501, "still waiting for byte 501");
    let out = c.on_segment(&seg(501, 1001, ACK | PSH, b"now"), 11);
    assert_eq!(out[0].payload, b"now");
}

#[test]
fn retransmits_unacked_data_and_gives_up_eventually() {
    let mut c = conn(Box::new(Echo));
    handshake(&mut c);
    c.on_segment(&seg(501, 1001, ACK | PSH, b"abc"), 0);
    assert!(c.tick(500).is_empty(), "before the timeout nothing happens");
    let out = c.tick(1000);
    assert_eq!(out.len(), 1);
    assert_eq!((out[0].seq, &out[0].payload[..]), (1001, &b"abc"[..]));
    for i in 1..=MAX_RETRIES {
        let _ = c.tick(1000 + u64::from(i) * 1000);
    }
    assert_eq!(c.state, State::Closed, "after too many retries the connection is dropped");
}

#[test]
fn peer_closes_first() {
    let mut c = conn(Box::new(Echo));
    handshake(&mut c);
    let out = c.on_segment(&seg(501, 1001, ACK | FIN, b""), 0);
    // we ack the FIN and, having nothing to send, send our own FIN
    assert!(out.iter().any(|o| o.flags & FIN != 0));
    assert_eq!(out.last().unwrap().ack, 502);
    assert_eq!(c.state, State::LastAck);
    let out = c.on_segment(&seg(502, 1002, ACK, b""), 0);
    assert!(out.is_empty());
    assert_eq!(c.state, State::Closed);
}

#[test]
fn http_service_answers_and_closes_first() {
    let mut c = conn(Box::new(Http::new()));
    handshake(&mut c);
    let out = c.on_segment(&seg(501, 1001, ACK | PSH, b"GET / HTTP/1.1\r\nHost: x\r\n\r\n"), 0);
    let data: Vec<u8> = out.iter().flat_map(|o| o.payload.clone()).collect();
    let text = String::from_utf8(data).unwrap();
    assert!(text.starts_with("HTTP/1.1 200 OK"));
    assert!(text.contains("GET / HTTP/1.1"));
    assert!(out.last().unwrap().flags & FIN != 0, "FIN follows the response");
    assert_eq!(c.state, State::FinWait1);
    let fin_seq = out.last().unwrap().seq;
    // peer acks everything including our FIN, then closes
    let out = c.on_segment(&seg(528, fin_seq + 1, ACK, b""), 0);
    assert!(out.is_empty());
    assert_eq!(c.state, State::FinWait2);
    let out = c.on_segment(&seg(528, fin_seq + 1, ACK | FIN, b""), 0);
    assert_eq!(out.len(), 1);
    assert_eq!(out[0].ack, 529);
    assert_eq!(c.state, State::TimeWait);
    assert!(c.tick(5000).is_empty());
    assert_eq!(c.state, State::Closed);
}

struct Big;

impl Service for Big {
    fn on_data(&mut self, _: &[u8]) -> (Vec<u8>, bool) {
        (vec![7u8; 3000], false)
    }
}

#[test]
fn large_replies_are_segmented_by_mss_and_window() {
    let mut c = conn(Box::new(Big));
    handshake(&mut c);
    let out = c.on_segment(&seg(501, 1001, ACK | PSH, b"x"), 0);
    let sizes: Vec<usize> = out.iter().map(|o| o.payload.len()).collect();
    assert_eq!(sizes, vec![1200, 1200, 600]);
    assert!(out[2].flags & PSH != 0);
    assert_eq!(out[1].seq, 1001 + 1200);
}

#[test]
fn reset_closes_and_syn_on_established_is_ignored() {
    let mut c = conn(Box::new(Echo));
    handshake(&mut c);
    assert!(c.on_segment(&seg(501, 1001, SYN, b""), 0).is_empty());
    assert_eq!(c.state, State::Established);
    c.on_segment(&seg(501, 1001, RST, b""), 0);
    assert_eq!(c.state, State::Closed);
}
