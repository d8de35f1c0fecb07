//! The TCP connection as a mathematical state machine: what every event does
//! to a connection, and what a connection satisfies at all times.
use vstd::prelude::*;

use crate::packet::{flag_set, Ipv4Addr, TcpView, ACK, FIN, PSH, RST, SYN};
use crate::seqno::{seq_add, seq_before, seq_dist};
use crate::service::{Answer, Farewell, ServiceView};
use crate::tcp::{State, MAX_RETRIES, MSS, RTO_MS, TIME_WAIT_MS};

verus! {

/// A segment that was sent and is kept until it is acknowledged.
pub struct SentView {
    pub seq: u32,
    pub data: Seq<u8>,
    pub flags: u8,
}

/// A segment to send.
pub struct OutView {
    pub seq: u32,
    pub ack: u32,
    pub flags: u8,
    pub payload: Seq<u8>,
}

/// A connection.
pub struct ConnView {
    pub state: State,
    pub local: (Ipv4Addr, u16),
    pub remote: (Ipv4Addr, u16),
    /// the oldest sequence number that is not acknowledged
    pub snd_una: u32,
    /// the sequence number of the next segment
    pub snd_nxt: u32,
    /// segments in flight, oldest first
    pub unacked: Seq<SentView>,
    /// application data not yet sent
    pub send_queue: Seq<u8>,
    /// whether a FIN is to follow the queue
    pub fin_pending: bool,
    /// the sequence number expected from the peer
    pub rcv_nxt: u32,
    pub peer_window: u16,
    pub last_send_ms: u64,
    pub retries: u32,
    pub time_wait_started: u64,
    pub service: ServiceView,
}

/// Whether a segment takes a sequence number for a SYN or a FIN.
pub open spec fn marked(s: SentView) -> bool {
    flag_set(s.flags, SYN | FIN)
}

/// How many sequence numbers a segment takes.
pub open spec fn span(s: SentView) -> nat {
    s.data.len() + if marked(s) {
        1nat
    } else {
        0
    }
}

/// The bytes of data in a list of segments.
pub open spec fn data_len(q: Seq<SentView>) -> nat
    decreases q.len(),
{
    if q.len() == 0 {
        0
    } else {
        q[0].data.len() + data_len(q.skip(1))
    }
}

/// The SYNs and FINs in a list of segments.
pub open spec fn marks(q: Seq<SentView>) -> nat
    decreases q.len(),
{
    if q.len() == 0 {
        0
    } else {
        (if marked(q[0]) {
            1nat
        } else {
            0
        }) + marks(q.skip(1))
    }
}

/// A segment as it may be in flight: data of at most MSS bytes, or a bare SYN
/// or FIN.
pub open spec fn sent_ok(s: SentView) -> bool {
    ||| (s.flags == 0 || s.flags == PSH) && 1 <= s.data.len() <= MSS
    ||| (s.flags == SYN || s.flags == FIN) && s.data.len() == 0
}

/// Whether segments follow each other without a gap, from sequence number
/// `start` up to `end`.
pub open spec fn chained(q: Seq<SentView>, start: u32, end: u32) -> bool
    decreases q.len(),
{
    if q.len() == 0 {
        start == end
    } else {
        &&& q[0].seq == start
        &&& sent_ok(q[0])
        &&& chained(q.skip(1), seq_add(start, span(q[0])), end)
    }
}

/// The segments left after an acknowledgement: those from the first one that
/// does not end at or before it.
pub open spec fn drop_acked(q: Seq<SentView>, ack: u32) -> Seq<SentView>
    decreases q.len(),
{
    if q.len() > 0 && !seq_before(ack, seq_add(q[0].seq, span(q[0]))) {
        drop_acked(q.skip(1), ack)
    } else {
        q
    }
}

/// How many SYNs and FINs can be in flight in a state.
pub open spec fn most_marks(state: State) -> nat {
    match state {
        State::Listen => 0,
        State::SynReceived | State::Established | State::CloseWait => 1,
        _ => 2,
    }
}

/// Whether the state lets a connection send queued data.
pub open spec fn may_send(state: State) -> bool {
    state == State::Established || state == State::CloseWait || state == State::FinWait1 || state
        == State::FinWait2
}

/// Whether the state lets a connection hand received data to its service.
pub open spec fn may_deliver(state: State) -> bool {
    state == State::Established || state == State::FinWait1 || state == State::FinWait2
}

pub open spec fn min(a: int, b: int) -> int {
    if a < b {
        a
    } else {
        b
    }
}

impl ConnView {
    /// What every connection satisfies: the segments in flight follow each
    /// other up to the next sequence number, the first of them is the one
    /// that holds the oldest number not acknowledged, and they hold no more
    /// data than a window can be wide.
    pub open spec fn wf(self) -> bool {
        &&& self.retries <= MAX_RETRIES
        &&& if self.unacked.len() == 0 {
            self.snd_una == self.snd_nxt
        } else {
            &&& chained(self.unacked, self.unacked[0].seq, self.snd_nxt)
            &&& seq_dist(self.unacked[0].seq, self.snd_una) < span(self.unacked[0])
        }
        &&& data_len(self.unacked) <= 0xFFFF
        &&& marks(self.unacked) <= most_marks(self.state)
        &&& self.state == State::Listen ==> self.unacked.len() == 0
    }

    /// A segment of this connection: it always acknowledges what has arrived.
    pub open spec fn segment(self, seq: u32, flags: u8, payload: Seq<u8>) -> OutView {
        OutView { seq, ack: self.rcv_nxt, flags: flags | ACK, payload }
    }

    /// The transmission of a segment in flight.
    pub open spec fn transmission(self, s: SentView) -> OutView {
        self.segment(s.seq, s.flags, s.data)
    }

    // ---- opening

    /// A listening connection after a SYN: it has sent its own.
    pub open spec fn opened(self, seg: TcpView, now: u64) -> ConnView {
        ConnView {
            state: State::SynReceived,
            rcv_nxt: seq_add(seg.seq, 1),
            peer_window: seg.window,
            unacked: self.unacked.push(
                SentView { seq: self.snd_nxt, data: Seq::empty(), flags: SYN },
            ),
            snd_nxt: seq_add(self.snd_nxt, 1),
            last_send_ms: now,
            ..self
        }
    }

    // ---- acknowledgements

    /// Whether an acknowledgement is news: after the oldest number not
    /// acknowledged, and not after what was sent.
    pub open spec fn is_new_ack(self, ack: u32) -> bool {
        seq_before(self.snd_una, ack) && !seq_before(self.snd_nxt, ack)
    }

    /// The connection after an acknowledgement number.
    pub open spec fn acknowledged(self, ack: u32) -> ConnView {
        if self.is_new_ack(ack) {
            ConnView {
                snd_una: ack,
                retries: 0,
                unacked: drop_acked(self.unacked, ack),
                ..self
            }
        } else {
            self
        }
    }

    /// The state that a connection moves to when an acknowledgement has been
    /// taken in.
    pub open spec fn state_after_ack(self) -> State {
        match self.state {
            State::SynReceived if self.snd_una == self.snd_nxt => State::Established,
            State::FinWait1 if self.unacked.len() == 0 && !self.fin_pending => State::FinWait2,
            State::Closing if self.unacked.len() == 0 => State::TimeWait,
            State::LastAck if self.unacked.len() == 0 => State::Closed,
            other => other,
        }
    }

    /// The connection after the acknowledgement that a segment carries.
    pub open spec fn after_ack(self, seg: TcpView, now: u64) -> ConnView {
        if seg.has(ACK) {
            let c = ConnView { peer_window: seg.window, ..self.acknowledged(seg.ack) };
            let state = c.state_after_ack();
            ConnView {
                state,
                time_wait_started: if state == State::TimeWait && c.state != State::TimeWait {
                    now
                } else {
                    c.time_wait_started
                },
                ..c
            }
        } else {
            self
        }
    }

    // ---- data

    /// Whether the data of a segment are the next in order.
    pub open spec fn takes_data(self, seg: TcpView) -> bool {
        seg.payload.len() > 0 && seg.seq == self.rcv_nxt
    }

    /// Whether the data of a segment go to the service.
    pub open spec fn delivers(self, seg: TcpView) -> bool {
        self.takes_data(seg) && may_deliver(self.state)
    }

    /// The connection after the data of a segment, for which the service
    /// asked to send `reply` and, if `close`, to close.
    pub open spec fn with_data(self, seg: TcpView, reply: Seq<u8>, close: bool) -> ConnView {
        if self.takes_data(seg) {
            ConnView {
                rcv_nxt: seq_add(self.rcv_nxt, seg.payload.len()),
                send_queue: if may_deliver(self.state) {
                    self.send_queue + reply
                } else {
                    self.send_queue
                },
                fin_pending: self.fin_pending || close && may_deliver(self.state),
                ..self
            }
        } else {
            self
        }
    }

    /// The connection with its service remembering something else.
    pub open spec fn remembering(self, memory: Seq<u8>) -> ConnView {
        ConnView { service: ServiceView { memory, ..self.service }, ..self }
    }

    /// The connection after the data of a segment.
    pub open spec fn after_data(self, seg: TcpView, answer: Answer) -> ConnView {
        if self.delivers(seg) {
            self.remembering(answer.memory).with_data(seg, answer.reply, answer.close)
        } else {
            self.with_data(seg, Seq::empty(), false)
        }
    }

    // ---- the peer's FIN

    /// Whether a segment ends the peer's stream here.
    pub open spec fn takes_fin(self, seg: TcpView) -> bool {
        seg.has(FIN) && seq_add(seg.seq, seg.payload.len()) == self.rcv_nxt
    }

    /// Whether the service is told of the end of the peer's stream.
    pub open spec fn tells_service(self, seg: TcpView) -> bool {
        self.takes_fin(seg) && (self.state == State::Established || self.state
            == State::SynReceived)
    }

    /// The connection after the FIN of a segment, for which the service asked
    /// to send `last` before closing.
    pub open spec fn with_fin(self, seg: TcpView, last: Seq<u8>, now: u64) -> ConnView {
        if self.takes_fin(seg) {
            let c = ConnView { rcv_nxt: seq_add(self.rcv_nxt, 1), ..self };
            match self.state {
                State::Established | State::SynReceived => ConnView {
                    send_queue: self.send_queue + last,
                    fin_pending: true,
                    state: State::CloseWait,
                    ..c
                },
                State::FinWait1 => ConnView { state: State::Closing, ..c },
                State::FinWait2 => ConnView {
                    state: State::TimeWait,
                    time_wait_started: now,
                    ..c
                },
                _ => c,
            }
        } else {
            self
        }
    }

    /// The connection after the FIN of a segment.
    pub open spec fn after_fin(self, seg: TcpView, farewell: Farewell, now: u64) -> ConnView {
        if self.tells_service(seg) {
            self.remembering(farewell.memory).with_fin(seg, farewell.bytes, now)
        } else {
            self.with_fin(seg, Seq::empty(), now)
        }
    }

    // ---- sending

    /// How many queued bytes the peer's window has room for.
    pub open spec fn sendable(self) -> nat {
        let room = self.peer_window - data_len(self.unacked);
        if !may_send(self.state) || room <= 0 {
            0
        } else {
            min(self.send_queue.len() as int, room) as nat
        }
    }

    /// Into how many segments they go.
    pub open spec fn piece_count(self) -> nat {
        (self.sendable() + MSS as nat - 1) as nat / MSS as nat
    }

    /// The `i`-th of these segments: MSS bytes, or what is left of the
    /// sendable ones. The segment that empties the queue is pushed.
    pub open spec fn piece(self, i: int) -> SentView {
        let end = min((i + 1) * MSS, self.sendable() as int);
        SentView {
            seq: seq_add(self.snd_nxt, (i * MSS) as nat),
            data: self.send_queue.subrange(i * MSS, end),
            flags: if end == self.send_queue.len() {
                PSH
            } else {
                0
            },
        }
    }

    pub open spec fn pieces(self) -> Seq<SentView> {
        Seq::new(self.piece_count(), |i: int| self.piece(i))
    }

    /// The connection after `k` of its pieces have been sent.
    pub open spec fn after_pieces(self, k: int, now: u64) -> ConnView {
        let sent = min(k * MSS, self.sendable() as int);
        ConnView {
            unacked: self.unacked + self.pieces().take(k),
            snd_nxt: seq_add(self.snd_nxt, sent as nat),
            send_queue: self.send_queue.skip(sent),
            last_send_ms: if k > 0 {
                now
            } else {
                self.last_send_ms
            },
            ..self
        }
    }

    /// Whether a FIN goes out: it was asked for, nothing is queued before it,
    /// and none was sent yet.
    pub open spec fn sends_fin(self) -> bool {
        self.fin_pending && self.send_queue.len() == 0 && (self.state == State::Established
            || self.state == State::CloseWait)
    }

    /// The FIN that a connection sends.
    pub open spec fn fin_segment(self) -> SentView {
        SentView { seq: self.snd_nxt, data: Seq::empty(), flags: FIN }
    }

    /// The connection after it has sent a FIN.
    pub open spec fn after_own_fin(self, now: u64) -> ConnView {
        ConnView {
            unacked: self.unacked.push(self.fin_segment()),
            snd_nxt: seq_add(self.snd_nxt, 1),
            fin_pending: false,
            last_send_ms: now,
            state: if self.state == State::CloseWait {
                State::LastAck
            } else {
                State::FinWait1
            },
            ..self
        }
    }

    /// The connection after it has sent what it could.
    pub open spec fn flushed(self, now: u64) -> ConnView {
        let c = self.after_pieces(self.piece_count() as int, now);
        if c.sends_fin() {
            c.after_own_fin(now)
        } else {
            c
        }
    }

    /// The segments that it sends then.
    pub open spec fn flush_segments(self) -> Seq<SentView> {
        let c = self.after_pieces(self.piece_count() as int, 0);
        if c.sends_fin() {
            self.pieces().push(c.fin_segment())
        } else {
            self.pieces()
        }
    }

    /// The transmissions of these segments.
    pub open spec fn flush_out(self) -> Seq<OutView> {
        Seq::new(
            self.flush_segments().len(),
            |i: int| self.transmission(self.flush_segments()[i]),
        )
    }

    // ---- events

    /// Whether a segment gets past the states that deal with it at once.
    pub open spec fn goes_on(self, seg: TcpView, now: u64) -> bool {
        &&& !seg.has(RST)
        &&& self.state != State::Listen
        &&& self.state != State::Closed
        &&& self.after_ack(seg, now).state != State::Closed
    }

    /// Whether a segment has the service asked for an answer.
    pub open spec fn asks_service(self, seg: TcpView, now: u64) -> bool {
        self.goes_on(seg, now) && self.after_ack(seg, now).delivers(seg)
    }

    /// Whether a segment has the service asked for its last words, when it has
    /// given its answer to the data.
    pub open spec fn asks_farewell(self, seg: TcpView, now: u64, answer: Answer) -> bool {
        self.goes_on(seg, now) && self.after_ack(seg, now).after_data(seg, answer).tells_service(
            seg,
        )
    }

    /// Whether the service may react to a segment by this answer and this
    /// farewell, as far as it is asked for them.
    pub open spec fn may_react(
        self,
        seg: TcpView,
        now: u64,
        answer: Answer,
        farewell: Farewell,
    ) -> bool {
        let acked = self.after_ack(seg, now);
        let fed = acked.after_data(seg, answer);
        self.goes_on(seg, now) ==> {
            &&& acked.delivers(seg) ==> acked.service.may_answer(seg.payload, answer)
            &&& fed.tells_service(seg) ==> fed.service.may_leave(farewell)
        }
    }

    /// The connection when a segment has been taken in and nothing has been
    /// sent in return.
    pub open spec fn taken_in(
        self,
        seg: TcpView,
        now: u64,
        answer: Answer,
        farewell: Farewell,
    ) -> ConnView {
        self.after_ack(seg, now).after_data(seg, answer).after_fin(seg, farewell, now)
    }

    /// Whether a segment has to be acknowledged: it brought data, in order or
    /// not, or the end of the stream.
    pub open spec fn owes_ack(self, seg: TcpView, now: u64, answer: Answer) -> bool {
        seg.payload.len() > 0 || self.after_ack(seg, now).after_data(seg, answer).takes_fin(seg)
    }

    /// What a segment makes of a connection, given what the service answers
    /// to its data and says to its FIN.
    pub open spec fn after_segment(
        self,
        seg: TcpView,
        now: u64,
        answer: Answer,
        farewell: Farewell,
    ) -> ConnView {
        if seg.has(RST) {
            ConnView { state: State::Closed, ..self }
        } else if self.state == State::Listen {
            if seg.has(SYN) {
                self.opened(seg, now)
            } else {
                self
            }
        } else if self.state == State::Closed {
            self
        } else if !self.goes_on(seg, now) {
            self.after_ack(seg, now)
        } else {
            self.taken_in(seg, now, answer, farewell).flushed(now)
        }
    }

    /// What a connection sends on a segment.
    pub open spec fn segment_out(
        self,
        seg: TcpView,
        now: u64,
        answer: Answer,
        farewell: Farewell,
    ) -> Seq<OutView> {
        if self.state == State::Listen && seg.has(SYN) && !seg.has(RST) {
            seq![
                ConnView { rcv_nxt: seq_add(seg.seq, 1), ..self }.segment(
                    self.snd_nxt,
                    SYN,
                    Seq::empty(),
                ),
            ]
        } else if !self.goes_on(seg, now) {
            Seq::empty()
        } else {
            let c = self.taken_in(seg, now, answer, farewell);
            if c.flush_out().len() == 0 && self.owes_ack(seg, now, answer) {
                seq![c.segment(c.snd_nxt, 0, Seq::empty())]
            } else {
                c.flush_out()
            }
        }
    }

    // ---- time

    /// Whether a connection has waited long enough after its close.
    pub open spec fn wait_over(self, now: u64) -> bool {
        self.state == State::TimeWait && now - self.time_wait_started >= TIME_WAIT_MS
    }

    /// Whether the oldest segment in flight has been unanswered for too long.
    pub open spec fn overdue(self, now: u64) -> bool {
        self.unacked.len() > 0 && now - self.last_send_ms >= RTO_MS
    }

    /// Whether the passing of time closes a connection.
    pub open spec fn expires(self, now: u64) -> bool {
        self.wait_over(now) || self.overdue(now) && self.retries >= MAX_RETRIES
    }

    /// The connection when it has sent its oldest segment again.
    pub open spec fn retried(self, now: u64) -> ConnView {
        ConnView { retries: (self.retries + 1) as u32, last_send_ms: now, ..self }
    }

    /// The repetition of the oldest segment; data are pushed.
    pub open spec fn repetition(self) -> OutView {
        let s = self.unacked[0];
        self.segment(
            s.seq,
            if s.data.len() > 0 {
                s.flags | PSH
            } else {
                s.flags
            },
            s.data,
        )
    }

    /// What the passing of time makes of a connection.
    pub open spec fn after_tick(self, now: u64) -> ConnView {
        if self.expires(now) {
            ConnView { state: State::Closed, ..self }
        } else if self.overdue(now) {
            self.retried(now).flushed(now)
        } else {
            self.flushed(now)
        }
    }

    /// What a connection sends as time passes.
    pub open spec fn tick_out(self, now: u64) -> Seq<OutView> {
        if self.expires(now) {
            Seq::empty()
        } else if self.overdue(now) {
            seq![self.repetition()] + self.flush_out()
        } else {
            self.flush_out()
        }
    }
}

} // verus!
