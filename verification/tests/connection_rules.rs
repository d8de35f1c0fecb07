use std::cell::RefCell;
use std::rc::Rc;

use rustnet::packet::{Ipv4Addr, TcpSegment, ACK, FIN, PSH, RST, SYN};
use rustnet::tcp::{Connection, Echo, Http, Outgoing, Service, State, MAX_RETRIES, MSS, RTO_MS, TIME_WAIT_MS};

const LOCAL: (Ipv4Addr, u16) = (Ipv4Addr([10, 0, 0, 2]), 80);
const REMOTE: (Ipv4Addr, u16) = (Ipv4Addr([10, 0, 0, 1]), 5000);

fn segment(seq: u32, ack: u32, flags: u8, window: u16, payload: &[u8]) -> TcpSegment<'_> {
    TcpSegment { src_port: 5000, dst_port: 80, seq, ack, flags, window, payload }
}

/// A connection after its handshake: it has sent up to `iss + 1` and expects
/// number 501.
fn established(service: Box<dyn Service>, iss: u32, window: u16) -> Connection {
    let mut c = Connection::new(LOCAL, REMOTE, iss, service);
    let out = c.on_segment(&segment(500, 0, SYN, window, b""), 0);
    assert_eq!(out, vec![Outgoing { seq: iss, ack: 501, flags: SYN | ACK, payload: vec![] }]);
    assert!(c.on_segment(&segment(501, iss.wrapping_add(1), ACK, window, b""), 0).is_empty());
    assert_eq!(c.state(), State::Established);
    assert!(c.unacked().is_empty());
    c
}

/// Answers everything by the same bytes, says goodbye, and may close.
struct Fixed {
    reply: Vec<u8>,
    close: bool,
    goodbye: Vec<u8>,
}

impl Service for Fixed {
    fn on_data(&mut self, _: &[u8]) -> (Vec<u8>, bool) {
        (self.reply.clone(), self.close)
    }

    fn on_peer_close(&mut self) -> Vec<u8> {
        self.goodbye.clone()
    }
}

fn fixed(reply: &[u8], close: bool, goodbye: &[u8]) -> Box<dyn Service> {
    Box::new(Fixed { reply: reply.to_vec(), close, goodbye: goodbye.to_vec() })
}

fn joined(out: &[Outgoing]) -> Vec<u8> {
    out.iter().flat_map(|o| o.payload.clone()).collect()
}

#[test]
fn a_new_connection_waits_for_a_syn() {
    let mut c = Connection::new(LOCAL, REMOTE, 7, Box::new(Echo));
    assert_eq!((c.state, c.local(), c.remote()), (State::Listen, LOCAL, REMOTE));
    assert!(c.on_segment(&segment(1, 1, ACK, 100, b"data"), 0).is_empty());
    assert!(c.tick(1_000_000).is_empty());
    assert_eq!(c.state, State::Listen);
    assert!(!c.is_closed());
}

#[test]
fn the_peers_window_is_respected() {
    let mut c = established(fixed(&[7; 250], false, b""), 1000, 100);
    let out = c.on_segment(&segment(501, 1001, ACK, 100, b"x"), 0);
    assert_eq!(out.len(), 1);
    assert_eq!((out[0].seq, out[0].payload.len(), out[0].flags), (1001, 100, ACK));
    // nothing more goes out until there is room
    assert!(c.tick(10).is_empty());
    let out = c.on_segment(&segment(502, 1101, ACK, 100, b""), 20);
    assert_eq!((out.len(), out[0].seq, out[0].payload.len()), (1, 1101, 100));
    let out = c.on_segment(&segment(502, 1201, ACK, 200, b""), 30);
    assert_eq!((out.len(), out[0].seq, out[0].payload.len()), (1, 1201, 50));
    assert_eq!(out[0].flags, ACK | PSH, "the queue is empty now");
}

#[test]
fn a_closed_window_holds_everything_back() {
    let mut c = established(Box::new(Echo), 1000, 0);
    let out = c.on_segment(&segment(501, 1001, ACK, 0, b"hello"), 0);
    assert_eq!(out, vec![Outgoing { seq: 1001, ack: 506, flags: ACK, payload: vec![] }]);
    let out = c.on_segment(&segment(506, 1001, ACK, 3, b""), 1);
    assert_eq!(joined(&out), b"hel");
}

#[test]
fn acknowledgements_take_whole_segments_away() {
    let mut c = established(fixed(&[7; 3000], false, b""), 1000, 65535);
    assert_eq!(c.on_segment(&segment(501, 1001, ACK, 65535, b"x"), 0).len(), 3);
    assert_eq!(c.unacked().len(), 3);
    // half of the first segment
    c.on_segment(&segment(502, 1601, ACK, 65535, b""), 1);
    assert_eq!(c.unacked().len(), 3);
    // the first and half of the second
    c.on_segment(&segment(502, 2801, ACK, 65535, b""), 2);
    assert_eq!(c.unacked().len(), 2);
    assert_eq!(c.unacked()[0].seq, 2201);
    // an old one changes nothing, nor does one for what was never sent
    c.on_segment(&segment(502, 1001, ACK, 65535, b""), 3);
    c.on_segment(&segment(502, 4002, ACK, 65535, b""), 3);
    assert_eq!(c.unacked().len(), 2);
    // all of it
    c.on_segment(&segment(502, 4001, ACK, 65535, b""), 4);
    assert!(c.unacked().is_empty());
}

#[test]
fn sequence_numbers_wrap_around() {
    let mut c = established(Box::new(Echo), u32::MAX - 2, 65535);
    let out = c.on_segment(&segment(501, u32::MAX - 1, ACK, 65535, b"hello"), 0);
    assert_eq!((out[0].seq, joined(&out)), (u32::MAX - 1, b"hello".to_vec()));
    c.on_segment(&segment(506, 3, ACK, 65535, b""), 1);
    assert!(c.unacked().is_empty());
}

#[test]
fn data_are_consumed_once() {
    let mut c = established(Box::new(Echo), 1000, 65535);
    assert_eq!(joined(&c.on_segment(&segment(501, 1001, ACK, 65535, b"once"), 0)), b"once");
    let out = c.on_segment(&segment(501, 1005, ACK, 65535, b"once"), 1);
    assert_eq!(out, vec![Outgoing { seq: 1005, ack: 505, flags: ACK, payload: vec![] }]);
}

#[test]
fn five_thousand_bytes_come_back() {
    let mut c = established(Box::new(Echo), 1000, 65535);
    let data: Vec<u8> = (0..5000u32).map(|i| (i % 251) as u8).collect();
    let mut back = Vec::new();
    let mut seq = 501;
    for chunk in data.chunks(1460) {
        let out = c.on_segment(&segment(seq, 1001, ACK, 65535, chunk), 0);
        seq += chunk.len() as u32;
        assert!(out.iter().all(|o| o.ack == seq && o.flags & ACK != 0 && o.payload.len() <= MSS));
        back.extend(joined(&out));
    }
    assert_eq!(back, data);
}

#[test]
fn a_segment_is_repeated_six_times_and_no_more() {
    let mut c = established(Box::new(Echo), 1000, 65535);
    c.on_segment(&segment(501, 1001, ACK, 65535, b"abc"), 0);
    for i in 1..=u64::from(MAX_RETRIES) {
        assert!(c.tick(i * RTO_MS - 1).is_empty());
        let out = c.tick(i * RTO_MS);
        assert_eq!(out, vec![Outgoing { seq: 1001, ack: 504, flags: ACK | PSH, payload: b"abc".to_vec() }]);
        assert_eq!(c.state, State::Established);
    }
    assert!(c.tick(7 * RTO_MS).is_empty());
    assert!(c.is_closed());
    // closed for good
    assert!(c.on_segment(&segment(504, 1004, ACK, 65535, b"x"), 8000).is_empty());
    assert!(c.is_closed());
}

#[test]
fn an_answer_resets_the_count_of_tries() {
    let mut c = established(fixed(&[7; 2400], false, b""), 1000, 65535);
    c.on_segment(&segment(501, 1001, ACK, 65535, b"x"), 0);
    for i in 1..=6u64 {
        assert_eq!(c.tick(i * 1000).len(), 1);
    }
    c.on_segment(&segment(502, 2201, ACK, 65535, b""), 6500);
    // the second of two segments is pushed when it is repeated, like the first
    let out = c.tick(7000);
    assert_eq!((out[0].seq, out[0].flags, out[0].payload.len()), (2201, ACK | PSH, 1200));
    assert_eq!(c.state, State::Established);
}

#[test]
fn a_syn_is_repeated_too() {
    let mut c = Connection::new(LOCAL, REMOTE, 1000, Box::new(Echo));
    c.on_segment(&segment(500, 0, SYN, 65535, b""), 0);
    let out = c.tick(1000);
    assert_eq!(out, vec![Outgoing { seq: 1000, ack: 501, flags: SYN | ACK, payload: vec![] }]);
}

#[test]
fn the_last_words_go_out_before_the_fin() {
    let mut c = established(fixed(b"", false, b"goodbye"), 1000, 65535);
    let out = c.on_segment(&segment(501, 1001, ACK | FIN, 65535, b"end"), 0);
    assert_eq!(
        out,
        vec![
            Outgoing { seq: 1001, ack: 505, flags: ACK | PSH, payload: b"goodbye".to_vec() },
            Outgoing { seq: 1008, ack: 505, flags: ACK | FIN, payload: vec![] },
        ]
    );
    assert_eq!(c.state, State::LastAck);
    assert!(c.on_segment(&segment(505, 1009, ACK, 65535, b""), 1).is_empty());
    assert!(c.is_closed());
}

#[test]
fn the_fin_waits_for_the_queue() {
    let mut c = established(fixed(&[1; 150], true, b""), 1000, 100);
    let out = c.on_segment(&segment(501, 1001, ACK, 100, b"x"), 0);
    assert_eq!((out.len(), out[0].flags & FIN), (1, 0));
    assert_eq!(c.state, State::Established);
    let out = c.on_segment(&segment(502, 1101, ACK, 100, b""), 1);
    assert_eq!(out.len(), 2);
    assert_eq!((out[0].payload.len(), out[1].flags, out[1].seq), (50, FIN | ACK, 1151));
    assert_eq!(c.state, State::FinWait1);
}

#[test]
fn we_close_first_and_wait_our_time() {
    let mut c = established(Box::new(Http::new()), 1000, 65535);
    let out = c.on_segment(&segment(501, 1001, ACK, 65535, b"GET / HTTP/1.0\r\n\r\n"), 0);
    let next = out.last().unwrap().seq + 1;
    assert_eq!(out.last().unwrap().flags, FIN | ACK);
    assert!(c.on_segment(&segment(519, next, ACK, 65535, b""), 1).is_empty());
    assert_eq!(c.state, State::FinWait2);
    let out = c.on_segment(&segment(519, next, ACK | FIN, 65535, b""), 100);
    assert_eq!(out, vec![Outgoing { seq: next, ack: 520, flags: ACK, payload: vec![] }]);
    assert_eq!(c.state, State::TimeWait);
    assert!(c.tick(100 + TIME_WAIT_MS - 1).is_empty());
    assert_eq!(c.state, State::TimeWait);
    assert!(c.tick(100 + TIME_WAIT_MS).is_empty());
    assert!(c.is_closed());
}

#[test]
fn both_close_at_once() {
    let mut c = established(fixed(b"", true, b""), 1000, 65535);
    let out = c.on_segment(&segment(501, 1001, ACK, 65535, b"x"), 0);
    assert_eq!(out, vec![Outgoing { seq: 1001, ack: 502, flags: FIN | ACK, payload: vec![] }]);
    let out = c.on_segment(&segment(502, 1001, FIN | ACK, 65535, b""), 1);
    assert_eq!(out, vec![Outgoing { seq: 1002, ack: 503, flags: ACK, payload: vec![] }]);
    assert_eq!(c.state, State::Closing);
    assert!(c.on_segment(&segment(503, 1002, ACK, 65535, b""), 2).is_empty());
    assert_eq!(c.state, State::TimeWait);
}

#[test]
fn data_after_the_peers_fin_are_not_delivered() {
    let mut c = established(fixed(&[1; 200], false, b""), 1000, 100);
    c.on_segment(&segment(501, 1001, ACK | FIN, 100, b"x"), 0);
    assert_eq!(c.state, State::CloseWait, "the window is full, so the FIN has to wait");
    let out = c.on_segment(&segment(503, 1001, ACK, 100, b"late"), 1);
    assert_eq!(out, vec![Outgoing { seq: 1101, ack: 507, flags: ACK, payload: vec![] }]);
}

#[test]
fn a_fin_out_of_order_is_not_taken() {
    let mut c = established(Box::new(Echo), 1000, 65535);
    assert!(c.on_segment(&segment(600, 1001, ACK | FIN, 65535, b""), 0).is_empty());
    assert_eq!(c.state, State::Established);
}

#[test]
fn resets_close_without_a_word_in_every_state() {
    let mut listening = Connection::new(LOCAL, REMOTE, 1, Box::new(Echo));
    assert!(listening.on_segment(&segment(1, 1, RST, 100, b""), 0).is_empty());
    assert!(listening.is_closed());
    let mut c = established(Box::new(Echo), 1000, 65535);
    assert!(c.on_segment(&segment(501, 1001, RST | ACK, 100, b"data"), 0).is_empty());
    assert!(c.is_closed());
}

#[test]
fn the_service_side_can_be_driven_by_hand() {
    let mut c = established(Box::new(Echo), 1000, 65535);
    c.accept_data(&segment(501, 0, 0, 100, b"12345"), b"reply", true);
    // out of order: neither the data nor the answer to them count
    c.accept_data(&segment(501, 0, 0, 100, b"12345"), b"again", false);
    let out = c.tick(1);
    assert_eq!(
        out,
        vec![
            Outgoing { seq: 1001, ack: 506, flags: ACK | PSH, payload: b"reply".to_vec() },
            Outgoing { seq: 1006, ack: 506, flags: ACK | FIN, payload: vec![] },
        ]
    );
    c.accept_fin(&segment(506, 0, FIN, 100, b""), b"ignored", 2);
    assert_eq!(c.state, State::Closing);

    let mut c = established(Box::new(Echo), 1000, 65535);
    c.accept_fin(&segment(501, 0, FIN, 100, b""), b"bye", 2);
    assert_eq!(c.state, State::CloseWait);
    assert_eq!(joined(&c.tick(3)), b"bye");
    assert_eq!(c.state, State::LastAck);
}

/// Writes down what it is asked.
struct Recorder(Rc<RefCell<Vec<String>>>);

impl Service for Recorder {
    fn on_data(&mut self, data: &[u8]) -> (Vec<u8>, bool) {
        self.0.borrow_mut().push(format!("data {}", String::from_utf8_lossy(data)));
        (vec![], false)
    }

    fn on_peer_close(&mut self) -> Vec<u8> {
        self.0.borrow_mut().push("close".to_string());
        vec![]
    }
}

#[test]
fn the_service_is_asked_when_it_should_be() {
    let asked = Rc::new(RefCell::new(Vec::new()));
    let mut c = established(Box::new(Recorder(asked.clone())), 1000, 65535);
    assert!(asked.borrow().is_empty());
    c.on_segment(&segment(501, 1001, ACK, 65535, b"one"), 0);
    c.on_segment(&segment(501, 1001, ACK, 65535, b"one"), 0);
    c.on_segment(&segment(600, 1001, ACK | FIN, 65535, b"later"), 0);
    assert_eq!(*asked.borrow(), vec!["data one"]);
    c.on_segment(&segment(504, 1001, ACK | FIN, 65535, b"two"), 0);
    c.on_segment(&segment(504, 1001, ACK | FIN, 65535, b"two"), 0);
    c.on_segment(&segment(508, 1001, ACK, 65535, b"three"), 0);
    assert_eq!(*asked.borrow(), vec!["data one", "data two", "close"]);
}

#[test]
fn segments_are_numbered_one_after_the_other() {
    let mut c = established(fixed(&[7; 3600], true, b""), 1000, 65535);
    let out = c.on_segment(&segment(501, 1001, ACK, 65535, b"x"), 0);
    let shape: Vec<(u32, usize, u8)> = out.iter().map(|o| (o.seq, o.payload.len(), o.flags)).collect();
    assert_eq!(
        shape,
        vec![(1001, 1200, ACK), (2201, 1200, ACK), (3401, 1200, ACK | PSH), (4601, 0, ACK | FIN)]
    );
}
