//! A small TCP implementation: passive open, the three-way handshake,
//! ordered delivery with cumulative acknowledgements, retransmission on
//! timeout, and both sides of connection teardown. Applications plug in as
//! a `Service` that receives bytes and may send bytes or close.
use std::collections::VecDeque;
use vstd::prelude::*;

use crate::connection_model::{
    data_len, drop_acked, may_send, min, sent_ok, span, ConnView, OutView, SentView,
};
use crate::connection_proof::{
    lemma_after_ack_wf, lemma_after_pieces_wf, lemma_data_len_take, lemma_flushed_wf,
    lemma_in_flight_ok, lemma_marked, lemma_no_pieces, lemma_one_piece, lemma_opened_wf,
    lemma_own_fin_wf, lemma_piece,
};
use crate::packet::{Ipv4Addr, TcpSegment, TcpView, ACK, FIN, PSH, RST, SYN};
use crate::seqno::{advance, seq_add, wrapping_lt};
use crate::service::{ask, is_answer, is_farewell, tell, Answer, Farewell, ServiceView, Slot};
use crate::wire::push_bytes;

pub use crate::http::Http;
pub use crate::service::{Echo, Service};

verus! {

/// The most data that a segment carries.
pub const MSS: usize = 1200;

/// The window before the peer has announced one.
pub const WINDOW: u16 = 16384;

/// How long a segment waits for its acknowledgement.
pub const RTO_MS: u64 = 1000;

/// How long a connection lingers after both sides have closed.
pub const TIME_WAIT_MS: u64 = 2000;

/// How often a segment is sent again.
pub const MAX_RETRIES: u32 = 6;

#[derive(Debug, Clone, Copy, PartialEq, Eq, Structural)]
pub enum State {
    Listen,
    SynReceived,
    Established,
    CloseWait,
    LastAck,
    FinWait1,
    FinWait2,
    Closing,
    TimeWait,
    Closed,
}

/// A segment that was sent and is kept until it is acknowledged.
#[derive(Debug, PartialEq, Eq, Clone)]
pub struct InFlight {
    pub seq: u32,
    pub data: Vec<u8>,
    pub flags: u8,
}

impl View for InFlight {
    type V = SentView;

    open spec fn view(&self) -> SentView {
        SentView { seq: self.seq, data: self.data@, flags: self.flags }
    }
}

/// The contents of a list of segments in flight.
pub open spec fn sent_views(q: Seq<InFlight>) -> Seq<SentView> {
    Seq::new(q.len(), |i: int| q[i]@)
}

/// Outgoing segment produced by the state machine (headers filled by the stack).
#[derive(Debug, PartialEq, Eq, Clone)]
pub struct Outgoing {
    pub seq: u32,
    pub ack: u32,
    pub flags: u8,
    pub payload: Vec<u8>,
}

impl View for Outgoing {
    type V = OutView;

    open spec fn view(&self) -> OutView {
        OutView { seq: self.seq, ack: self.ack, flags: self.flags, payload: self.payload@ }
    }
}

/// The contents of a list of outgoing segments.
pub open spec fn out_views(out: Seq<Outgoing>) -> Seq<OutView> {
    Seq::new(out.len(), |i: int| out[i]@)
}

/// The part of a connection that its own methods alone can read and change.
pub struct Link {
    // send side
    snd_una: u32,
    snd_nxt: u32,
    unacked: VecDeque<InFlight>,
    // application data not yet segmented
    send_queue: Vec<u8>,
    fin_pending: bool,
    // receive side
    rcv_nxt: u32,
    peer_window: u16,
    // timers
    last_send_ms: u64,
    retries: u32,
    time_wait_started: u64,
    service: Slot<Box<dyn Service>>,
}

pub struct Connection {
    pub state: State,
    pub local: (Ipv4Addr, u16),
    pub remote: (Ipv4Addr, u16),
    pub link: Link,
}

impl View for Connection {
    type V = ConnView;

    closed spec fn view(&self) -> ConnView {
        ConnView {
            state: self.state,
            local: self.local,
            remote: self.remote,
            snd_una: self.link.snd_una,
            snd_nxt: self.link.snd_nxt,
            unacked: sent_views(self.link.unacked@),
            send_queue: self.link.send_queue@,
            fin_pending: self.link.fin_pending,
            rcv_nxt: self.link.rcv_nxt,
            peer_window: self.link.peer_window,
            last_send_ms: self.link.last_send_ms,
            retries: self.link.retries,
            time_wait_started: self.link.time_wait_started,
            service: ServiceView {
                behaviour: self.link.service.item.behaviour(),
                memory: self.link.service.item.memory(),
            },
        }
    }
}

/// Whether the service may react to a segment by this answer and this
/// farewell, and be `mid` between them, as far as it is asked for them.
pub open spec fn reacts(
    c: ConnView,
    seg: TcpView,
    now: u64,
    answer: Answer,
    farewell: Farewell,
    mid: Slot<Box<dyn Service>>,
) -> bool {
    let fed = c.after_ack(seg, now).after_data(seg, answer);
    &&& c.may_react(seg, now, answer, farewell)
    &&& c.goes_on(seg, now) ==> fed.service == (ServiceView {
        behaviour: mid.item.behaviour(),
        memory: mid.item.memory(),
    })
}

/// A new connection waits for a SYN.
pub open spec fn listening(
    local: (Ipv4Addr, u16),
    remote: (Ipv4Addr, u16),
    iss: u32,
    service: ServiceView,
) -> ConnView {
    ConnView {
        state: State::Listen,
        local,
        remote,
        snd_una: iss,
        snd_nxt: iss,
        unacked: Seq::empty(),
        send_queue: Seq::empty(),
        fin_pending: false,
        rcv_nxt: 0,
        peer_window: WINDOW,
        last_send_ms: 0,
        retries: 0,
        time_wait_started: 0,
        service,
    }
}

impl Connection {
    /// The service of the connection.
    pub closed spec fn service(&self) -> Slot<Box<dyn Service>> {
        self.link.service
    }

    /// Whether the connection is in order; see `ConnView::wf`.
    pub open spec fn wf(&self) -> bool {
        self@.wf()
    }

    pub fn new(
        local: (Ipv4Addr, u16),
        remote: (Ipv4Addr, u16),
        iss: u32,
        service: Box<dyn Service>,
    ) -> (c: Self)
        ensures
            c.wf(),
            c@ == listening(
                local,
                remote,
                iss,
                ServiceView { behaviour: service.behaviour(), memory: service.memory() },
            ),
            c.service().item == service,
    {
        let service = Slot::new(service);
        let c = Connection {
            state: State::Listen,
            local,
            remote,
            link: Link {
                snd_una: iss,
                snd_nxt: iss,
                unacked: VecDeque::new(),
                send_queue: Vec::new(),
                fin_pending: false,
                rcv_nxt: 0,
                peer_window: WINDOW,
                last_send_ms: 0,
                retries: 0,
                time_wait_started: 0,
                service,
            },
        };
        assert(sent_views(c.link.unacked@) =~= Seq::empty());
        c
    }

    /// The fields are what the view says.
    pub proof fn lemma_fields(&self)
        ensures
            self@.state == self.state,
            self@.local == self.local,
            self@.remote == self.remote,
    {
    }

    pub fn is_closed(&self) -> (closed: bool)
        ensures
            closed == (self@.state == State::Closed),
    {
        self.state == State::Closed
    }

    pub fn state(&self) -> (state: State)
        ensures
            state == self@.state,
    {
        self.state
    }

    /// The address and port of the peer.
    pub fn remote(&self) -> (remote: (Ipv4Addr, u16))
        ensures
            remote == self@.remote,
    {
        self.remote
    }

    /// The local address and port.
    pub fn local(&self) -> (local: (Ipv4Addr, u16))
        ensures
            local == self@.local,
    {
        self.local
    }

    /// The segments in flight, oldest first.
    pub fn unacked(&self) -> (q: &VecDeque<InFlight>)
        ensures
            sent_views(q@) == self@.unacked,
    {
        &self.link.unacked
    }

    fn segment(&self, seq: u32, flags: u8, payload: Vec<u8>) -> (o: Outgoing)
        ensures
            o@ == self@.segment(seq, flags, payload@),
    {
        Outgoing { seq, ack: self.link.rcv_nxt, flags: flags | ACK, payload }
    }

    fn ack_only(&self) -> (o: Outgoing)
        ensures
            o@ == self@.segment(self@.snd_nxt, 0, Seq::empty()),
    {
        self.segment(self.link.snd_nxt, 0, Vec::new())
    }

    /// Keeps a segment until it is acknowledged.
    fn keep(&mut self, data: Vec<u8>, flags: u8, now_ms: u64)
        requires
            data@.len() <= MSS,
        ensures
            ({
                let s = SentView { seq: old(self)@.snd_nxt, data: data@, flags };
                final(self)@ == ConnView {
                    unacked: old(self)@.unacked.push(s),
                    snd_nxt: seq_add(old(self)@.snd_nxt, span(s)),
                    last_send_ms: now_ms,
                    ..old(self)@
                }
            }),
            final(self).service() == old(self).service(),
    {
        let mark: usize = if flags & (SYN | FIN) != 0 {
            1
        } else {
            0
        };
        let n: usize = data.len() + mark;
        let s = InFlight { seq: self.link.snd_nxt, data, flags };
        self.link.unacked.push_back(s);
        self.link.snd_nxt = advance(self.link.snd_nxt, n);
        self.link.last_send_ms = now_ms;
        assert(self@.unacked =~= old(self)@.unacked.push(s@));
    }

    /// Handles one incoming segment; returns segments to send.
    ///
    /// The service is handed the segment's data if they are the next in order
    /// and the state allows it, and is told of the peer's FIN likewise; what
    /// it does then is up to its behaviour, and everything else is fixed.
    /// It is asked by one call of `on_data` and, after that, one of
    /// `on_peer_close`, each where the model says so and nowhere else; `mid` is
    /// the service between the two.
    pub fn on_segment(&mut self, seg: &TcpSegment, now_ms: u64) -> (out: Vec<Outgoing>)
        requires
            old(self).wf(),
        ensures
            final(self).wf(),
            exists|answer: Answer, farewell: Farewell, mid: Slot<Box<dyn Service>>|
                {
                    &&& #[trigger] reacts(old(self)@, seg@, now_ms, answer, farewell, mid)
                    &&& final(self)@ == old(self)@.after_segment(seg@, now_ms, answer, farewell)
                    &&& out_views(out@) == old(self)@.segment_out(seg@, now_ms, answer, farewell)
                    &&& if old(self)@.asks_service(seg@, now_ms) {
                        exists|m: &mut dyn Service, data: &[u8], r: (Vec<u8>, bool)|
                            {
                                &&& #[trigger] is_answer(m, data, r)
                                &&& &*m == &*old(self).service().item
                                &&& &*final(m) == &*mid.item
                                &&& data@ == seg@.payload
                                &&& r.0@ == answer.reply
                                &&& r.1 == answer.close
                            }
                    } else {
                        mid == old(self).service()
                    }
                    &&& if old(self)@.asks_farewell(seg@, now_ms, answer) {
                        exists|m: &mut dyn Service, r: Vec<u8>|
                            {
                                &&& #[trigger] is_farewell(m, r)
                                &&& &*m == &*mid.item
                                &&& &*final(m) == &*final(self).service().item
                                &&& r@ == farewell.bytes
                            }
                    } else {
                        final(self).service() == mid
                    }
                },
    {
        let ghost c = self@;
        let ghost before = self.service();
        let ghost nothing = Answer { reply: Seq::empty(), close: false, memory: Seq::empty() };
        let ghost silence = Farewell { bytes: Seq::empty(), memory: Seq::empty() };
        let mut out: Vec<Outgoing> = Vec::new();
        assert(out_views(out@) =~= Seq::empty());
        if seg.has(RST) {
            self.state = State::Closed;
            assert(reacts(c, seg@, now_ms, nothing, silence, before));
            return out;
        }
        if self.state == State::Listen || self.state == State::Closed {
            assert(reacts(c, seg@, now_ms, nothing, silence, before));
            if self.state == State::Listen && seg.has(SYN) {
                let syn_ack: Outgoing = self.open(seg, now_ms);
                out.push(syn_ack);
                assert(out_views(out@) =~= c.segment_out(seg@, now_ms, nothing, silence));
            }
            return out;
        }
        // acknowledgement processing (all states after Listen)

        self.accept_ack(seg, now_ms);
        if self.state == State::Closed {
            assert(reacts(c, seg@, now_ms, nothing, silence, before));
            return out;
        }
        // data: only in-order segments are consumed; anything else is re-acked

        let answer: Ghost<Answer> = self.take_data(seg);
        let ghost mid = self.service();
        // peer's FIN
        let ends: bool = self.ends_stream(seg);
        let farewell: Ghost<Farewell> = self.take_fin(seg, now_ms);
        assert(reacts(c, seg@, now_ms, answer@, farewell@, mid));
        self.reply(!seg.payload.is_empty() || ends, now_ms)
    }

    /// Takes in the data of a segment, and hands them to the service if they
    /// are the next in order and the state allows it.
    fn take_data(&mut self, seg: &TcpSegment) -> (answer: Ghost<Answer>)
        requires
            old(self).wf(),
        ensures
            final(self).wf(),
            old(self)@.delivers(seg@) ==> old(self)@.service.may_answer(seg@.payload, answer@),
            final(self)@ == old(self)@.after_data(seg@, answer@),
            old(self)@.delivers(seg@) ==> exists|
                m: &mut dyn Service,
                data: &[u8],
                r: (Vec<u8>, bool),
            |
                {
                    &&& #[trigger] is_answer(m, data, r)
                    &&& &*m == &*old(self).service().item
                    &&& &*final(m) == &*final(self).service().item
                    &&& data@ == seg@.payload
                    &&& r.0@ == answer@.reply
                    &&& r.1 == answer@.close
                },
            !old(self)@.delivers(seg@) ==> final(self).service() == old(self).service(),
    {
        let ghost c = self@;
        if self.wants_data(seg) {
            let (reply, close) = ask(&mut self.link.service, seg.payload);
            let ghost answer = Answer {
                reply: reply@,
                close,
                memory: self.link.service.item.memory(),
            };
            assert(self@ == c.remembering(answer.memory));
            self.accept_data(seg, reply.as_slice(), close);
            Ghost(answer)
        } else {
            let nothing: Vec<u8> = Vec::new();
            self.accept_data(seg, nothing.as_slice(), false);
            Ghost(Answer { reply: Seq::empty(), close: false, memory: Seq::empty() })
        }
    }

    /// Takes in the FIN of a segment, and tells the service where it is to
    /// know.
    fn take_fin(&mut self, seg: &TcpSegment, now_ms: u64) -> (farewell: Ghost<Farewell>)
        requires
            old(self).wf(),
            old(self)@.state != State::Listen,
        ensures
            final(self).wf(),
            final(self)@.state != State::Listen,
            old(self)@.tells_service(seg@) ==> old(self)@.service.may_leave(farewell@),
            final(self)@ == old(self)@.after_fin(seg@, farewell@, now_ms),
            old(self)@.tells_service(seg@) ==> exists|m: &mut dyn Service, r: Vec<u8>|
                {
                    &&& #[trigger] is_farewell(m, r)
                    &&& &*m == &*old(self).service().item
                    &&& &*final(m) == &*final(self).service().item
                    &&& r@ == farewell@.bytes
                },
            !old(self)@.tells_service(seg@) ==> final(self).service() == old(self).service(),
    {
        let ghost c = self@;
        if self.ends_stream(seg) && (self.state == State::Established || self.state
            == State::SynReceived) {
            let last: Vec<u8> = tell(&mut self.link.service);
            let ghost farewell = Farewell { bytes: last@, memory: self.link.service.item.memory() };
            assert(self@ == c.remembering(farewell.memory));
            self.accept_fin(seg, last.as_slice(), now_ms);
            Ghost(farewell)
        } else {
            let nothing: Vec<u8> = Vec::new();
            self.accept_fin(seg, nothing.as_slice(), now_ms);
            Ghost(Farewell { bytes: Seq::empty(), memory: Seq::empty() })
        }
    }

    /// Sends what can be sent, and at least an acknowledgement if one is owed.
    fn reply(&mut self, owes_ack: bool, now_ms: u64) -> (out: Vec<Outgoing>)
        requires
            old(self).wf(),
        ensures
            final(self).wf(),
            final(self).service() == old(self).service(),
            final(self)@ == old(self)@.flushed(now_ms),
            out_views(out@) == (if owes_ack && old(self)@.flush_out().len() == 0 {
                seq![old(self)@.segment(old(self)@.snd_nxt, 0, Seq::empty())]
            } else {
                old(self)@.flush_out()
            }),
    {
        let ghost c = self@;
        let mut out: Vec<Outgoing> = self.flush(now_ms);
        if owes_ack && out.is_empty() {
            assert(c.flush_out().len() == 0);
            proof {
                lemma_no_pieces(c, now_ms);
            }
            let ack: Outgoing = self.ack_only();
            out.push(ack);
            assert(out_views(out@) =~= seq![c.segment(c.snd_nxt, 0, Seq::empty())]);
        }
        out
    }

    /// Answers a SYN.
    fn open(&mut self, seg: &TcpSegment, now_ms: u64) -> (o: Outgoing)
        requires
            old(self).wf(),
            old(self)@.state == State::Listen,
        ensures
            final(self).wf(),
            final(self).service() == old(self).service(),
            final(self)@ == old(self)@.opened(seg@, now_ms),
            o@ == (ConnView { rcv_nxt: seq_add(seg@.seq, 1), ..old(self)@ }).segment(
                old(self)@.snd_nxt,
                SYN,
                Seq::empty(),
            ),
    {
        proof {
            lemma_opened_wf(self@, seg@, now_ms);
        }
        self.link.rcv_nxt = advance(seg.seq, 1);
        self.link.peer_window = seg.window;
        let syn_ack: Outgoing = self.segment(self.link.snd_nxt, SYN, Vec::new());
        let data: Vec<u8> = Vec::new();
        proof {
            lemma_marked(SentView { seq: self@.snd_nxt, data: data@, flags: SYN });
        }
        self.keep(data, SYN, now_ms);
        self.state = State::SynReceived;
        syn_ack
    }

    /// Takes in the acknowledgement that a segment carries.
    fn accept_ack(&mut self, seg: &TcpSegment, now_ms: u64)
        requires
            old(self).wf(),
            old(self)@.state != State::Listen,
        ensures
            final(self).wf(),
            final(self).service() == old(self).service(),
            final(self)@ == old(self)@.after_ack(seg@, now_ms),
            final(self)@.state != State::Listen,
    {
        proof {
            lemma_after_ack_wf(self@, seg@, now_ms);
        }
        if seg.has(ACK) {
            self.process_ack(seg.ack);
            self.link.peer_window = seg.window;
            let idle: bool = self.link.unacked.len() == 0;
            match self.state {
                State::SynReceived => {
                    if self.link.snd_una == self.link.snd_nxt {
                        self.state = State::Established;
                    }
                },
                State::FinWait1 => {
                    if idle && !self.link.fin_pending {
                        self.state = State::FinWait2;
                    }
                },
                State::Closing => {
                    if idle {
                        self.state = State::TimeWait;
                        self.link.time_wait_started = now_ms;
                    }
                },
                State::LastAck => {
                    if idle {
                        self.state = State::Closed;
                    }
                },
                _ => {},
            }
        }
    }

    fn process_ack(&mut self, ack: u32)
        requires
            old(self).wf(),
        ensures
            final(self).service() == old(self).service(),
            final(self)@ == old(self)@.acknowledged(ack),
    {
        let ghost q = self@.unacked;
        proof {
            lemma_in_flight_ok(self@);
        }
        if wrapping_lt(self.link.snd_una, ack) && !wrapping_lt(self.link.snd_nxt, ack) {
            self.link.snd_una = ack;
            self.link.retries = 0;
            let mut more: bool = true;
            while more && self.link.unacked.len() > 0
                invariant
                    self.service() == old(self).service(),
                    drop_acked(sent_views(self.link.unacked@), ack) == drop_acked(q, ack),
                    more || sent_views(self.link.unacked@) == drop_acked(q, ack),
                    forall|i: int|
                        0 <= i < self.link.unacked@.len() ==> sent_ok(
                            #[trigger] sent_views(self.link.unacked@)[i],
                        ),
                    self@ == (ConnView {
                        snd_una: ack,
                        retries: 0,
                        unacked: self@.unacked,
                        ..old(self)@
                    }),
                decreases
                    self.link.unacked.len(),
                    if more {
                        1int
                    } else {
                        0
                    },
            {
                let ghost before = sent_views(self.link.unacked@);
                let front: &InFlight = &self.link.unacked[0];
                let mark: usize = if front.flags & (SYN | FIN) != 0 {
                    1
                } else {
                    0
                };
                assert(sent_ok(before[0]));
                let end: u32 = advance(front.seq, front.data.len() + mark);
                if !wrapping_lt(ack, end) {
                    let _ = self.link.unacked.pop_front();
                    assert(sent_views(self.link.unacked@) =~= before.skip(1));
                } else {
                    more = false;
                }
            }
        }
    }

    /// Whether the data of a segment go to the service.
    fn wants_data(&self, seg: &TcpSegment) -> (yes: bool)
        ensures
            yes == self@.delivers(seg@),
    {
        !seg.payload.is_empty() && seg.seq == self.link.rcv_nxt && (self.state == State::Established
            || self.state == State::FinWait1 || self.state == State::FinWait2)
    }

    /// Takes in the data of a segment, to which the service answered `reply`
    /// and, if `close`, that the connection should be closed. Data out of
    /// order, and the answer to them, are ignored.
    pub fn accept_data(&mut self, seg: &TcpSegment, reply: &[u8], close: bool)
        requires
            old(self).wf(),
        ensures
            final(self).wf(),
            final(self).service() == old(self).service(),
            final(self)@ == old(self)@.with_data(seg@, reply@, close),
    {
        if !seg.payload.is_empty() && seg.seq == self.link.rcv_nxt {
            self.link.rcv_nxt = advance(self.link.rcv_nxt, seg.payload.len());
            if self.state == State::Established || self.state == State::FinWait1 || self.state
                == State::FinWait2 {
                push_bytes(&mut self.link.send_queue, reply);
                if close {
                    self.link.fin_pending = true;
                }
            }
        }
    }

    /// Whether a segment ends the peer's stream here.
    fn ends_stream(&self, seg: &TcpSegment) -> (yes: bool)
        ensures
            yes == self@.takes_fin(seg@),
    {
        seg.has(FIN) && advance(seg.seq, seg.payload.len()) == self.link.rcv_nxt
    }

    /// Takes in the FIN of a segment, if it ends the peer's stream here; the
    /// service, where it is asked, wants `last` sent before the close.
    pub fn accept_fin(&mut self, seg: &TcpSegment, last: &[u8], now_ms: u64)
        requires
            old(self).wf(),
        ensures
            final(self).wf(),
            final(self).service() == old(self).service(),
            final(self)@ == old(self)@.with_fin(seg@, last@, now_ms),
            old(self)@.state != State::Listen ==> final(self)@.state != State::Listen,
    {
        if self.ends_stream(seg) {
            self.link.rcv_nxt = advance(self.link.rcv_nxt, 1);
            match self.state {
                State::Established | State::SynReceived => {
                    push_bytes(&mut self.link.send_queue, last);
                    self.link.fin_pending = true;  // we close too once our data is out
                    self.state = State::CloseWait;
                },
                State::FinWait1 => {
                    self.state = State::Closing;
                },
                State::FinWait2 => {
                    self.state = State::TimeWait;
                    self.link.time_wait_started = now_ms;
                },
                _ => {},
            }
        }
    }

    /// The bytes of data in flight.
    fn in_flight(&self) -> (n: usize)
        requires
            self.wf(),
        ensures
            n == data_len(self@.unacked),
    {
        let mut n: usize = 0;
        let mut i: usize = 0;
        let ghost q = self@.unacked;
        assert(q.take(0) =~= Seq::empty());
        while i < self.link.unacked.len()
            invariant
                i <= self.link.unacked.len(),
                q == sent_views(self.link.unacked@),
                data_len(q) <= 0xFFFF,
                n == data_len(q.take(i as int)),
            decreases self.link.unacked.len() - i,
        {
            proof {
                lemma_data_len_take(q, i as int);
            }
            n = n + self.link.unacked[i].data.len();
            i = i + 1;
        }
        assert(q.take(i as int) =~= q);
        n
    }

    /// Turns queued application data (and a pending FIN) into segments.
    fn flush(&mut self, now_ms: u64) -> (out: Vec<Outgoing>)
        requires
            old(self).wf(),
        ensures
            final(self).wf(),
            final(self).service() == old(self).service(),
            final(self)@ == old(self)@.flushed(now_ms),
            out_views(out@) == old(self)@.flush_out(),
    {
        let ghost c = self@;
        let mut out: Vec<Outgoing> = Vec::new();
        proof {
            lemma_flushed_wf(c, now_ms);
            lemma_no_pieces(c, now_ms);
        }
        if !(self.state == State::Established || self.state == State::CloseWait || self.state
            == State::FinWait1 || self.state == State::FinWait2) {
            assert(out_views(out@) =~= c.flush_out());
            return out;
        }
        let mut budget: usize = (self.link.peer_window as usize).saturating_sub(self.in_flight());
        let ghost room = budget;
        let ghost mut k: int = 0;
        while self.link.send_queue.len() > 0 && budget > 0
            invariant
                self.service() == old(self).service(),
                may_send(c.state),
                0 <= k <= c.piece_count(),
                k > 0 ==> (k - 1) * MSS < c.sendable(),
                self@ == c.after_pieces(k, now_ms),
                c.sendable() == min(c.send_queue.len() as int, room as int),
                budget == room - min(k * MSS, c.sendable() as int),
                out@.len() == k,
                forall|i: int|
                    0 <= i < k ==> #[trigger] out@[i]@ == c.transmission(c.pieces()[i]),
            decreases budget,
        {
            proof {
                assert(c.send_queue.skip(min(k * MSS, c.sendable() as int)).len() > 0);
                assert(k * MSS < c.sendable());
                lemma_piece(c, k);
                lemma_one_piece(c, k, now_ms);
                lemma_marked(c.piece(k));
            }
            let mut n: usize = self.link.send_queue.len();
            if n > MSS {
                n = MSS;
            }
            if n > budget {
                n = budget;
            }
            assert(n == c.piece(k).data.len());
            let ghost queue = self.link.send_queue@;
            let mut data: Vec<u8> = self.link.send_queue.split_off(n);
            std::mem::swap(&mut data, &mut self.link.send_queue);
            assert(data@ =~= queue.take(n as int));
            assert(self.link.send_queue@ =~= queue.skip(n as int));
            let flags: u8 = if self.link.send_queue.is_empty() {
                PSH
            } else {
                0
            };
            assert(SentView { seq: self.link.snd_nxt, data: data@, flags } == c.piece(k));
            let copy: Vec<u8> = data.clone();
            assert(copy@ =~= data@);
            let o: Outgoing = self.segment(self.link.snd_nxt, flags, copy);
            assert(o@ == c.transmission(c.pieces()[k]));
            out.push(o);
            self.keep(data, flags, now_ms);
            budget = budget - n;
            proof {
                k = k + 1;
            }
        }
        proof {
            assert(k == c.piece_count());
            lemma_after_pieces_wf(c, k, now_ms);
        }
        let ghost sent = self@;
        if self.link.fin_pending && self.link.send_queue.is_empty() && (self.state
            == State::Established || self.state == State::CloseWait) {
            proof {
                lemma_own_fin_wf(sent, now_ms);
                lemma_marked(sent.fin_segment());
            }
            let o: Outgoing = self.segment(self.link.snd_nxt, FIN, Vec::new());
            out.push(o);
            let nothing: Vec<u8> = Vec::new();
            assert(nothing@ =~= Seq::empty());
            self.keep(nothing, FIN, now_ms);
            self.link.fin_pending = false;
            self.state = if self.state == State::CloseWait {
                State::LastAck
            } else {
                State::FinWait1
            };
        }
        assert(out_views(out@) =~= c.flush_out());
        out
    }

    /// Periodic maintenance: retransmit the oldest unacknowledged segment
    /// after the timeout, give up after too many tries, leave TIME-WAIT.
    pub fn tick(&mut self, now_ms: u64) -> (out: Vec<Outgoing>)
        requires
            old(self).wf(),
        ensures
            final(self).wf(),
            final(self).service() == old(self).service(),
            final(self)@ == old(self)@.after_tick(now_ms),
            out_views(out@) == old(self)@.tick_out(now_ms),
    {
        let ghost c = self@;
        let mut out: Vec<Outgoing> = Vec::new();
        if self.state == State::TimeWait && now_ms.saturating_sub(self.link.time_wait_started)
            >= TIME_WAIT_MS {
            self.state = State::Closed;
            assert(out_views(out@) =~= Seq::empty());
            return out;
        }
        if self.link.unacked.len() > 0 && now_ms.saturating_sub(self.link.last_send_ms) >= RTO_MS {
            if self.link.retries >= MAX_RETRIES {
                self.state = State::Closed;
                assert(out_views(out@) =~= Seq::empty());
                return out;
            }
            self.link.retries = self.link.retries + 1;
            self.link.last_send_ms = now_ms;
            let front: &InFlight = &self.link.unacked[0];
            let flags: u8 = if front.data.is_empty() {
                front.flags
            } else {
                front.flags | PSH
            };
            let copy: Vec<u8> = front.data.clone();
            assert(copy@ =~= front.data@);
            let o: Outgoing = self.segment(front.seq, flags, copy);
            out.push(o);
        }
        let ghost before = self@;
        let mut rest: Vec<Outgoing> = self.flush(now_ms);
        proof {
            assert(before.pieces() =~= c.pieces());
            assert(before.flush_out() =~= c.flush_out());
        }
        out.append(&mut rest);
        assert(out_views(out@) =~= c.tick_out(now_ms));
        out
    }
}

} // verus!
