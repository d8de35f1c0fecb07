//! What every event makes of a TCP connection, field by field, and what it
//! sends, segment by segment.
use vstd::prelude::*;

use crate::connection_laws::{
    law_acknowledgement_takes_what_arrived, law_window_is_respected, lemma_stream_len, stream,
};
use crate::connection_model::{drop_acked, ConnView, OutView, SentView};
use crate::connection_proof::{lemma_after_ack_wf, lemma_chained_end, lemma_no_pieces, lemma_piece};
use crate::packet::{Ipv4Addr, TcpView, ACK, FIN, RST, SYN};
use crate::seqno::{seq_add, seq_before, seq_dist};
use crate::seqno_laws::law_before_is_within_half_a_round;
use crate::service::{Answer, Farewell, Service, ServiceView, Slot};
use crate::tcp::{listening, out_views, reacts, sent_views, InFlight, Outgoing, State};

verus! {

// ---------------------------------------------------------------- sending

pub open spec fn smaller(a: int, b: int) -> int {
    if a <= b {
        a
    } else {
        b
    }
}

/// How many bytes of its queue a connection sends: all that there is room for
/// in the peer's window beside what is in flight, in the states in which it
/// may send.
pub open spec fn bytes_to_send(c: ConnView) -> int {
    let room = c.peer_window - stream(c.unacked).len();
    if (c.state == State::Established || c.state == State::CloseWait || c.state == State::FinWait1
        || c.state == State::FinWait2) && room > 0 {
        smaller(c.send_queue.len() as int, room)
    } else {
        0
    }
}

/// Whether a FIN follows them: it was asked for, none was sent, and nothing
/// is left in the queue.
pub open spec fn fin_to_send(c: ConnView) -> bool {
    &&& c.fin_pending
    &&& c.state == State::Established || c.state == State::CloseWait
    &&& bytes_to_send(c) == c.send_queue.len()
}

/// What sending makes of a connection: the bytes leave the queue for the
/// segments in flight, each takes a number, and so does the FIN, which also
/// moves the state on. Nothing else changes.
pub proof fn law_sending_field_by_field(c: ConnView, now: u64)
    ensures
        ({
            let n = bytes_to_send(c);
            let fin = fin_to_send(c);
            let d = c.flushed(now);
            &&& 0 <= n <= c.send_queue.len()
            &&& d == ConnView {
                send_queue: c.send_queue.skip(n),
                unacked: d.unacked,
                snd_nxt: seq_add(
                    c.snd_nxt,
                    (n + if fin {
                        1int
                    } else {
                        0
                    }) as nat,
                ),
                fin_pending: c.fin_pending && !fin,
                last_send_ms: if n > 0 || fin {
                    now
                } else {
                    c.last_send_ms
                },
                state: if fin && c.state == State::Established {
                    State::FinWait1
                } else if fin {
                    State::LastAck
                } else {
                    c.state
                },
                ..c
            }
        }),
{
    lemma_sendable(c);
    lemma_no_pieces(c, now);
    let n = bytes_to_send(c);
    let k = c.piece_count() as int;
    if k > 0 {
        lemma_piece(c, k - 1);
    }
    assert(smaller(k * 1200, n) == n);
    let mid = c.after_pieces(k, now);
    assert(mid.send_queue =~= c.send_queue.skip(n));
    assert(mid.snd_nxt == seq_add(c.snd_nxt, n as nat));
    assert(seq_add(seq_add(c.snd_nxt, n as nat), 1) == seq_add(c.snd_nxt, (n + 1) as nat));
    assert(mid.sends_fin() == fin_to_send(c));
}

/// The room that the model counts is the room in the window.
proof fn lemma_sendable(c: ConnView)
    ensures
        c.sendable() == bytes_to_send(c),
        c.piece_count() == (bytes_to_send(c) + 1199) / 1200,
{
    lemma_stream_len(c.unacked);
}

/// What sending puts in flight: segments of 1200 bytes and one with the rest,
/// numbered by their bytes, marked where one empties the queue, and then the
/// FIN; each is sent as it is kept, with an acknowledgement of what has come.
pub proof fn law_sending_segment_by_segment(c: ConnView, now: u64)
    ensures
        ({
            let n = bytes_to_send(c);
            let fin = fin_to_send(c);
            let pieces = (n + 1199) / 1200;
            let out = c.flush_out();
            let flight = c.flushed(now).unacked;
            &&& out.len() == pieces + if fin {
                1int
            } else {
                0
            }
            &&& flight.len() == c.unacked.len() + out.len()
            &&& flight.take(c.unacked.len() as int) == c.unacked
            &&& forall|i: int|
                0 <= i < out.len() ==> {
                    &&& #[trigger] out[i] == OutView {
                        seq: flight[c.unacked.len() + i].seq,
                        ack: c.rcv_nxt,
                        flags: flight[c.unacked.len() + i].flags | 16,
                        payload: flight[c.unacked.len() + i].data,
                    }
                }
            &&& forall|i: int|
                0 <= i < pieces ==> {
                    let end = smaller((i + 1) * 1200, n);
                    #[trigger] flight[c.unacked.len() + i] == SentView {
                        seq: seq_add(c.snd_nxt, (i * 1200) as nat),
                        data: c.send_queue.subrange(i * 1200, end),
                        flags: if end == c.send_queue.len() {
                            8
                        } else {
                            0
                        },
                    }
                }
            &&& fin ==> flight.last() == (SentView {
                seq: seq_add(c.snd_nxt, n as nat),
                data: Seq::empty(),
                flags: 1,
            })
        }),
{
    law_sending_field_by_field(c, now);
    law_sending_field_by_field(c, 0);
    lemma_sendable(c);
    lemma_no_pieces(c, now);
    let n = bytes_to_send(c);
    let k = c.piece_count() as int;
    if k > 0 {
        lemma_piece(c, k - 1);
    }
    let mid = c.after_pieces(k, now);
    let mid0 = c.after_pieces(k, 0);
    assert(mid.snd_nxt == mid0.snd_nxt && mid.send_queue == mid0.send_queue);
    assert(mid.sends_fin() == fin_to_send(c) && mid0.sends_fin() == fin_to_send(c));
    assert(c.pieces().take(k) =~= c.pieces());
    let flight = c.flushed(now).unacked;
    assert(flight =~= c.unacked + c.flush_segments());
    assert(flight.take(c.unacked.len() as int) =~= c.unacked);
    let out = c.flush_out();
    assert forall|i: int| 0 <= i < out.len() implies #[trigger] out[i] == (OutView {
        seq: flight[c.unacked.len() + i].seq,
        ack: c.rcv_nxt,
        flags: flight[c.unacked.len() + i].flags | 16,
        payload: flight[c.unacked.len() + i].data,
    }) by {
        assert(flight[c.unacked.len() + i] == c.flush_segments()[i]);
    }
    assert forall|i: int| 0 <= i < k implies {
        let end = smaller((i + 1) * 1200, n);
        #[trigger] flight[c.unacked.len() + i] == SentView {
            seq: seq_add(c.snd_nxt, (i * 1200) as nat),
            data: c.send_queue.subrange(i * 1200, end),
            flags: if end == c.send_queue.len() {
                8
            } else {
                0
            },
        }
    } by {
        assert(flight[c.unacked.len() + i] == c.flush_segments()[i]);
        assert(c.flush_segments()[i] == c.piece(i));
    }
}

// ---------------------------------------------------------------- acknowledgements

/// How many places a number is after another.
pub open spec fn places(from: u32, to: u32) -> int {
    (to - from) % 0x1_0000_0000
}

/// The number after the last one that a segment takes: one for each byte, and
/// one for a SYN or a FIN.
pub open spec fn end_of(s: SentView) -> u32 {
    seq_add(
        s.seq,
        s.data.len() + if s.flags & 3 != 0 {
            1nat
        } else {
            0
        },
    )
}

/// Whether an acknowledgement is of something sent that was not yet
/// acknowledged.
pub open spec fn is_news(c: ConnView, ack: u32) -> bool {
    1 <= places(c.snd_una, ack) <= places(c.snd_una, c.snd_nxt)
}

/// Which acknowledgements are news.
proof fn lemma_news(c: ConnView, ack: u32)
    requires
        c.wf(),
    ensures
        c.is_new_ack(ack) == is_news(c, ack),
{
    law_before_is_within_half_a_round(c.snd_una, ack);
    law_before_is_within_half_a_round(c.snd_nxt, ack);
    let m = 0x1_0000_0000int;
    let f = places(c.snd_una, c.snd_nxt);
    let d = places(c.snd_una, ack);
    if c.unacked.len() > 0 {
        let start = c.unacked[0].seq;
        lemma_chained_end(c.unacked, start, c.snd_nxt);
        let total = crate::connection_model::data_len(c.unacked) + crate::connection_model::marks(
            c.unacked,
        );
        let u = seq_dist(start, c.snd_una);
        assert(u < crate::connection_model::span(c.unacked[0]) <= total);
        lemma_places(start, c.snd_una, c.snd_nxt, u as int, total as int);
        assert(f == total - u);
    }
    assert(0 <= f <= 0x1_0002);
    assert(0 <= d < m);
    lemma_after(c.snd_una, c.snd_nxt, ack, f, d);
}

/// The distance between two numbers that lie so many places after a third.
proof fn lemma_places(start: u32, a: u32, b: u32, u: int, t: int)
    requires
        u == seq_dist(start, a),
        b == seq_add(start, t as nat),
        0 <= u <= t < 0x1_0000_0000,
    ensures
        places(a, b) == t - u,
{
    let m = 0x1_0000_0000int;
    assert(u == (a - start) % m);
    assert(b == (start + t) % m);
    let q1 = (a - start) / m;
    let q2 = (start + t) / m;
    assert(a - start == q1 * m + u);
    assert(start + t == q2 * m + b);
    assert(b - a == (t - u) + (-(q1 + q2)) * m);
    vstd::arithmetic::div_mod::lemma_fundamental_div_mod_converse(b - a, m, -(q1 + q2), t - u);
}

/// The distance from one number to another by way of a third.
proof fn lemma_after(a: u32, b: u32, x: u32, f: int, d: int)
    requires
        f == places(a, b),
        d == places(a, x),
        0 <= f <= 0x1_0002,
    ensures
        d >= f ==> places(b, x) == d - f,
        d < f ==> places(b, x) == d - f + 0x1_0000_0000,
{
    let m = 0x1_0000_0000int;
    let q1 = (b - a) / m;
    let q2 = (x - a) / m;
    assert(b - a == q1 * m + f);
    assert(x - a == q2 * m + d);
    assert(x - b == (q2 - q1) * m + (d - f));
    if d >= f {
        vstd::arithmetic::div_mod::lemma_fundamental_div_mod_converse(x - b, m, q2 - q1, d - f);
    } else {
        assert(x - b == (q2 - q1 - 1) * m + (d - f + m));
        vstd::arithmetic::div_mod::lemma_fundamental_div_mod_converse(
            x - b,
            m,
            q2 - q1 - 1,
            d - f + m,
        );
    }
}

/// What the acknowledgement of a segment makes of a connection, field by
/// field. The window is from then on the one that the segment announces. An
/// acknowledgement that is news moves the oldest number on and starts the
/// count of tries anew. The state moves on where all is acknowledged.
pub proof fn law_acknowledgement_field_by_field(c: ConnView, seg: TcpView, now: u64)
    requires
        c.wf(),
    ensures
        !seg.has(ACK) ==> c.after_ack(seg, now) == c,
        seg.has(ACK) ==> {
            let d = c.after_ack(seg, now);
            let news = is_news(c, seg.ack);
            let all = d.unacked.len() == 0;
            &&& d == ConnView {
                peer_window: seg.window,
                snd_una: if news {
                    seg.ack
                } else {
                    c.snd_una
                },
                retries: if news {
                    0
                } else {
                    c.retries
                },
                unacked: d.unacked,
                state: if c.state == State::SynReceived && d.snd_una == c.snd_nxt {
                    State::Established
                } else if c.state == State::FinWait1 && all && !c.fin_pending {
                    State::FinWait2
                } else if c.state == State::Closing && all {
                    State::TimeWait
                } else if c.state == State::LastAck && all {
                    State::Closed
                } else {
                    c.state
                },
                time_wait_started: if c.state == State::Closing && all {
                    now
                } else {
                    c.time_wait_started
                },
                ..c
            }
            &&& !news ==> d.unacked == c.unacked
        },
{
    lemma_news(c, seg.ack);
}

/// What an acknowledgement that is news leaves in flight: the segments from
/// the first on that reaches past it; all before that one end at it or before
/// it.
pub proof fn law_acknowledgement_segment_by_segment(c: ConnView, seg: TcpView, now: u64)
    requires
        c.wf(),
        seg.has(ACK),
        is_news(c, seg.ack),
    ensures
        ({
            let left = c.after_ack(seg, now).unacked;
            let gone = c.unacked.len() - left.len();
            &&& 0 <= gone
            &&& left == c.unacked.skip(gone)
            &&& forall|i: int|
                0 <= i < gone ==> !(1 <= places(seg.ack, end_of(#[trigger] c.unacked[i]))
                    <= 0x8000_0000)
            &&& left.len() > 0 ==> 1 <= places(seg.ack, end_of(left[0])) <= 0x8000_0000
        }),
{
    lemma_news(c, seg.ack);
    lemma_dropped(c.unacked, seg.ack);
}

proof fn lemma_dropped(q: Seq<SentView>, ack: u32)
    ensures
        ({
            let left = drop_acked(q, ack);
            let gone = q.len() - left.len();
            &&& 0 <= gone
            &&& left == q.skip(gone)
            &&& forall|i: int|
                0 <= i < gone ==> !(1 <= places(ack, end_of(#[trigger] q[i])) <= 0x8000_0000)
            &&& left.len() > 0 ==> 1 <= places(ack, end_of(left[0])) <= 0x8000_0000
        }),
    decreases q.len(),
{
    let left = drop_acked(q, ack);
    if q.len() > 0 {
        assert(2u8 | 1u8 == 3u8) by (bit_vector);
        law_before_is_within_half_a_round(ack, end_of(q[0]));
        if !seq_before(ack, end_of(q[0])) {
            let rest = q.skip(1);
            lemma_dropped(rest, ack);
            let gone = q.len() - left.len();
            assert(rest.skip(gone - 1) =~= q.skip(gone));
            assert forall|i: int| 0 <= i < gone implies !(1 <= places(
                ack,
                end_of(#[trigger] q[i]),
            ) <= 0x8000_0000) by {
                if i > 0 {
                    assert(q[i] == rest[i - 1]);
                }
            }
        } else {
            assert(q.skip(0) =~= q);
        }
    } else {
        assert(q.skip(0) =~= q);
    }
}

// ---------------------------------------------------------------- data and FIN

/// Whether the data of a segment are the next.
pub open spec fn data_in_order(c: ConnView, seg: TcpView) -> bool {
    seg.payload.len() > 0 && seg.seq == c.rcv_nxt
}

/// Whether a state lets the service have data.
pub open spec fn open_for_data(state: State) -> bool {
    state == State::Established || state == State::FinWait1 || state == State::FinWait2
}

/// The number expected after the data of a segment.
pub open spec fn expected_after_data(c: ConnView, seg: TcpView) -> u32 {
    if data_in_order(c, seg) {
        seq_add(c.rcv_nxt, seg.payload.len())
    } else {
        c.rcv_nxt
    }
}

/// What taking in data makes of a connection: data in order move on the number
/// expected, and the answer joins the queue where the service was to have
/// them; a wish to close is remembered. Nothing else changes.
pub proof fn law_data_field_by_field(c: ConnView, seg: TcpView, reply: Seq<u8>, close: bool)
    ensures
        !data_in_order(c, seg) ==> c.with_data(seg, reply, close) == c,
        data_in_order(c, seg) ==> c.with_data(seg, reply, close) == (ConnView {
            rcv_nxt: seq_add(c.rcv_nxt, seg.payload.len()),
            send_queue: if open_for_data(c.state) {
                c.send_queue + reply
            } else {
                c.send_queue
            },
            fin_pending: c.fin_pending || (close && open_for_data(c.state)),
            ..c
        }),
{
}

/// Whether a segment ends the peer's stream at the number expected.
pub open spec fn fin_in_order(seg: TcpView, expected: u32) -> bool {
    seg.has(FIN) && seq_add(seg.seq, seg.payload.len()) == expected
}

/// What taking in a FIN makes of a connection: one in order takes a number
/// and moves the state on; before any close of our own, the last words join
/// the queue and a FIN is to follow them. Nothing else changes.
pub proof fn law_fin_field_by_field(c: ConnView, seg: TcpView, last: Seq<u8>, now: u64)
    ensures
        !fin_in_order(seg, c.rcv_nxt) ==> c.with_fin(seg, last, now) == c,
        fin_in_order(seg, c.rcv_nxt) ==> {
            let open = c.state == State::Established || c.state == State::SynReceived;
            c.with_fin(seg, last, now) == ConnView {
                rcv_nxt: seq_add(c.rcv_nxt, 1),
                send_queue: if open {
                    c.send_queue + last
                } else {
                    c.send_queue
                },
                fin_pending: c.fin_pending || open,
                state: if open {
                    State::CloseWait
                } else if c.state == State::FinWait1 {
                    State::Closing
                } else if c.state == State::FinWait2 {
                    State::TimeWait
                } else {
                    c.state
                },
                time_wait_started: if c.state == State::FinWait2 {
                    now
                } else {
                    c.time_wait_started
                },
                ..c
            }
        },
{
}

// ---------------------------------------------------------------- segments

/// The connection when the acknowledgement, the data and the FIN of a segment
/// have been taken in, field by field; `a` is what the acknowledgement made of
/// it.
pub open spec fn with_segment(
    a: ConnView,
    seg: TcpView,
    now: u64,
    answer: Answer,
    farewell: Farewell,
) -> ConnView {
    let asked = data_in_order(a, seg) && open_for_data(a.state);
    let expected = expected_after_data(a, seg);
    let ends = fin_in_order(seg, expected);
    let told = ends && (a.state == State::Established || a.state == State::SynReceived);
    ConnView {
        rcv_nxt: if ends {
            seq_add(expected, 1)
        } else {
            expected
        },
        send_queue: a.send_queue + (if asked {
            answer.reply
        } else {
            Seq::empty()
        }) + (if told {
            farewell.bytes
        } else {
            Seq::empty()
        }),
        fin_pending: a.fin_pending || (asked && answer.close) || told,
        state: if told {
            State::CloseWait
        } else if ends && a.state == State::FinWait1 {
            State::Closing
        } else if ends && a.state == State::FinWait2 {
            State::TimeWait
        } else {
            a.state
        },
        time_wait_started: if ends && a.state == State::FinWait2 {
            now
        } else {
            a.time_wait_started
        },
        service: ServiceView {
            behaviour: a.service.behaviour,
            memory: if told {
                farewell.memory
            } else if asked {
                answer.memory
            } else {
                a.service.memory
            },
        },
        ..a
    }
}

/// What a segment makes of a connection that has left LISTEN and is not
/// closed, and what is sent: its acknowledgement is taken in, then its data
/// and its FIN, and then the connection sends what it can. A bare
/// acknowledgement goes out if and only if nothing else does and the segment
/// brought data or the end of the stream.
pub proof fn law_segments_are_taken_in(
    c: ConnView,
    seg: TcpView,
    now: u64,
    answer: Answer,
    farewell: Farewell,
)
    requires
        !seg.has(RST),
        c.state != State::Listen,
        c.state != State::Closed,
        c.after_ack(seg, now).state != State::Closed,
    ensures
        ({
            let a = c.after_ack(seg, now);
            let x = with_segment(a, seg, now, answer, farewell);
            let owed = seg.payload.len() > 0 || fin_in_order(seg, expected_after_data(a, seg));
            &&& c.after_segment(seg, now, answer, farewell) == x.flushed(now)
            &&& c.segment_out(seg, now, answer, farewell) == if x.flush_out().len() == 0 && owed {
                seq![OutView { seq: x.snd_nxt, ack: x.rcv_nxt, flags: 16, payload: Seq::empty() }]
            } else {
                x.flush_out()
            }
        }),
{
    let a = c.after_ack(seg, now);
    let fed = a.after_data(seg, answer);
    lemma_fed(a, seg, answer);
    lemma_over(a, seg, now, answer, farewell);
    assert(0u8 | 16u8 == 16u8) by (bit_vector);
}

proof fn lemma_fed(a: ConnView, seg: TcpView, answer: Answer)
    ensures
        ({
            let asked = data_in_order(a, seg) && open_for_data(a.state);
            let fed = a.after_data(seg, answer);
            &&& fed == ConnView {
                rcv_nxt: expected_after_data(a, seg),
                send_queue: if asked {
                    a.send_queue + answer.reply
                } else {
                    a.send_queue
                },
                fin_pending: a.fin_pending || (asked && answer.close),
                service: ServiceView {
                    behaviour: a.service.behaviour,
                    memory: if asked {
                        answer.memory
                    } else {
                        a.service.memory
                    },
                },
                ..a
            }
            &&& fed.takes_fin(seg) == fin_in_order(seg, expected_after_data(a, seg))
        }),
{
    assert(a.send_queue + Seq::<u8>::empty() =~= a.send_queue);
}

proof fn lemma_over(
    a: ConnView,
    seg: TcpView,
    now: u64,
    answer: Answer,
    farewell: Farewell,
)
    ensures
        a.after_data(seg, answer).after_fin(seg, farewell, now) == with_segment(
            a,
            seg,
            now,
            answer,
            farewell,
        ),
{
    lemma_fed(a, seg, answer);
    let fed = a.after_data(seg, answer);
    let over = fed.after_fin(seg, farewell, now);
    let x = with_segment(a, seg, now, answer, farewell);
    assert(fed.send_queue + Seq::<u8>::empty() =~= fed.send_queue);
    assert(a.send_queue + Seq::<u8>::empty() =~= a.send_queue);
    assert(over.send_queue =~= x.send_queue);
    assert(over.service == x.service);
    assert(over.state == x.state);
    assert(over.fin_pending == x.fin_pending);
}

/// The window that a segment announces with its acknowledgement is in force
/// from then on: what is in flight after the answer fits in it, or is no more
/// than was in flight before.
pub proof fn law_announced_window_is_in_force(
    c: ConnView,
    seg: TcpView,
    now: u64,
    answer: Answer,
    farewell: Farewell,
)
    requires
        c.wf(),
        seg.has(ACK),
        !seg.has(RST),
        c.state != State::Listen,
        c.state != State::Closed,
    ensures
        ({
            let d = c.after_segment(seg, now, answer, farewell);
            &&& d.peer_window == seg.window
            &&& stream(d.unacked).len() <= seg.window || stream(d.unacked).len() <= stream(
                c.unacked,
            ).len()
        }),
{
    let a = c.after_ack(seg, now);
    law_acknowledgement_field_by_field(c, seg, now);
    law_acknowledgement_takes_what_arrived(c, seg.ack);
    assert(stream(a.unacked).len() <= stream(c.unacked).len());
    if a.state != State::Closed {
        let x = with_segment(a, seg, now, answer, farewell);
        law_segments_are_taken_in(c, seg, now, answer, farewell);
        law_sending_field_by_field(x, now);
        lemma_after_ack_wf(c, seg, now);
        assert(x.wf());
        law_window_is_respected(x, now);
        lemma_stream_len(x.flushed(now).unacked);
        lemma_stream_len(x.unacked);
    }
}

/// A reset closes, a closed connection ignores everything, and an
/// acknowledgement that closes a connection is not answered.
pub proof fn law_segments_that_are_not_taken_in(
    c: ConnView,
    seg: TcpView,
    now: u64,
    answer: Answer,
    farewell: Farewell,
)
    ensures
        ({
            let d = c.after_segment(seg, now, answer, farewell);
            let out = c.segment_out(seg, now, answer, farewell);
            &&& seg.has(RST) ==> d == (ConnView { state: State::Closed, ..c }) && out.len() == 0
            &&& !seg.has(RST) && c.state == State::Closed ==> d == c && out.len() == 0
            &&& !seg.has(RST) && c.state == State::Listen && !seg.has(SYN) ==> d == c && out.len()
                == 0
            &&& !seg.has(RST) && c.state != State::Listen && c.state != State::Closed
                && c.after_ack(seg, now).state == State::Closed ==> d == c.after_ack(seg, now)
                && out.len() == 0
        }),
{
}

/// A SYN to a listening connection, field by field: it is answered by our own,
/// which is kept until it is acknowledged.
pub proof fn law_syn_field_by_field(
    c: ConnView,
    seg: TcpView,
    now: u64,
    answer: Answer,
    farewell: Farewell,
)
    requires
        c.state == State::Listen,
        seg.has(SYN),
        !seg.has(RST),
    ensures
        c.after_segment(seg, now, answer, farewell) == (ConnView {
            state: State::SynReceived,
            rcv_nxt: seq_add(seg.seq, 1),
            peer_window: seg.window,
            unacked: c.unacked + seq![
                SentView { seq: c.snd_nxt, data: Seq::empty(), flags: 2 },
            ],
            snd_nxt: seq_add(c.snd_nxt, 1),
            last_send_ms: now,
            ..c
        }),
        c.segment_out(seg, now, answer, farewell) == seq![
            OutView {
                seq: c.snd_nxt,
                ack: seq_add(seg.seq, 1),
                flags: 18,
                payload: Seq::empty(),
            },
        ],
{
    assert(2u8 | 16u8 == 18u8) by (bit_vector);
    let s = SentView { seq: c.snd_nxt, data: Seq::empty(), flags: 2 };
    assert(c.unacked.push(s) =~= c.unacked + seq![s]);
}

/// A new connection listens, has nothing to send, and takes the window of the
/// peer to be 16384 until it hears of one.
pub proof fn law_new_connection_field_by_field(
    local: (Ipv4Addr, u16),
    remote: (Ipv4Addr, u16),
    iss: u32,
    service: ServiceView,
)
    ensures
        listening(local, remote, iss, service) == (ConnView {
            state: State::Listen,
            local,
            remote,
            snd_una: iss,
            snd_nxt: iss,
            unacked: Seq::empty(),
            send_queue: Seq::empty(),
            fin_pending: false,
            rcv_nxt: 0,
            peer_window: 16384,
            last_send_ms: 0,
            retries: 0,
            time_wait_started: 0,
            service,
        }),
{
}

// ---------------------------------------------------------------- time

/// Whether a connection is given up as time passes: TIME-WAIT is over after
/// two seconds, and the oldest segment has been sent six times again and still
/// waited for a second.
pub open spec fn is_given_up(c: ConnView, now: u64) -> bool {
    ||| c.state == State::TimeWait && now - c.time_wait_started >= 2000
    ||| c.unacked.len() > 0 && now - c.last_send_ms >= 1000 && c.retries >= 6
}

/// Whether the oldest segment in flight is due to be sent again.
pub open spec fn is_due(c: ConnView, now: u64) -> bool {
    c.unacked.len() > 0 && now - c.last_send_ms >= 1000
}

/// What the passing of time makes of a connection, and what is sent: one that
/// is given up closes in silence; one whose oldest segment is due sends that
/// again, and counts it; and then it sends what it can.
pub proof fn law_time_field_by_field(c: ConnView, now: u64)
    ensures
        is_given_up(c, now) ==> {
            &&& c.after_tick(now) == (ConnView { state: State::Closed, ..c })
            &&& c.tick_out(now).len() == 0
        },
        !is_given_up(c, now) && is_due(c, now) ==> {
            &&& c.after_tick(now) == (ConnView {
                retries: (c.retries + 1) as u32,
                last_send_ms: now,
                ..c
            }).flushed(now)
            &&& c.tick_out(now).len() == 1 + c.flush_out().len()
            &&& c.tick_out(now).skip(1) == c.flush_out()
        },
        !is_given_up(c, now) && !is_due(c, now) ==> {
            &&& c.after_tick(now) == c.flushed(now)
            &&& c.tick_out(now) == c.flush_out()
        },
{
    if !is_given_up(c, now) && is_due(c, now) {
        assert(c.tick_out(now).skip(1) =~= c.flush_out());
    }
}

/// The segment that is sent again: the oldest in flight, with its number, its
/// data, an acknowledgement of what has come, and every flag that it had; it
/// is marked if it has data.
pub proof fn law_the_same_segment_is_sent_again(c: ConnView, now: u64)
    requires
        is_due(c, now),
        !is_given_up(c, now),
    ensures
        ({
            let s = c.unacked[0];
            let o = c.tick_out(now)[0];
            &&& c.tick_out(now).len() > 0
            &&& o.seq == s.seq
            &&& o.ack == c.rcv_nxt
            &&& o.payload == s.data
            &&& o.flags == if s.data.len() > 0 {
                s.flags | 8 | 16
            } else {
                s.flags | 16
            }
            &&& (o.flags & 1 != 0) == (s.flags & 1 != 0)
            &&& (o.flags & 2 != 0) == (s.flags & 2 != 0)
            &&& (o.flags & 4 != 0) == (s.flags & 4 != 0)
            &&& (o.flags & 8 != 0) == (s.flags & 8 != 0 || s.data.len() > 0)
            &&& o.flags & 16 != 0
        }),
{
    let f = c.unacked[0].flags;
    assert(c.tick_out(now)[0] == c.repetition());
    assert((f | 8 | 16) & 1 == f & 1 && (f | 16) & 1 == f & 1) by (bit_vector);
    assert((f | 8 | 16) & 2 == f & 2 && (f | 16) & 2 == f & 2) by (bit_vector);
    assert((f | 8 | 16) & 4 == f & 4 && (f | 16) & 4 == f & 4) by (bit_vector);
    assert((f | 8 | 16) & 8 != 0 && (f | 16) & 8 == f & 8) by (bit_vector);
    assert((f | 8 | 16) & 16 != 0 && (f | 16) & 16 != 0) by (bit_vector);
}

// ---------------------------------------------------------------- the service

/// Which segments have their data and FIN looked at: those without a reset,
/// on a connection that has left LISTEN, is not closed, and is not closed by
/// the acknowledgement either.
pub proof fn law_what_goes_on(c: ConnView, seg: TcpView, now: u64)
    ensures
        c.goes_on(seg, now) <==> {
            &&& !seg.has(RST)
            &&& c.state != State::Listen
            &&& c.state != State::Closed
            &&& c.after_ack(seg, now).state != State::Closed
        },
{
}

/// A reaction is one that the service may have: its answer is one to the data
/// of the segment, if these are next and the state lets it have them; between
/// answer and farewell it remembers what its answer left; and its farewell is
/// one that it may then take.
pub proof fn law_reactions(
    c: ConnView,
    seg: TcpView,
    now: u64,
    answer: Answer,
    farewell: Farewell,
    mid: Slot<Box<dyn Service>>,
)
    requires
        !seg.has(RST),
        c.state != State::Listen,
        c.state != State::Closed,
        c.after_ack(seg, now).state != State::Closed,
        reacts(c, seg, now, answer, farewell, mid),
    ensures
        ({
            let a = c.after_ack(seg, now);
            let asked = data_in_order(a, seg) && open_for_data(a.state);
            let told = fin_in_order(seg, expected_after_data(a, seg)) && (a.state
                == State::Established || a.state == State::SynReceived);
            &&& asked == c.asks_service(seg, now)
            &&& told == c.asks_farewell(seg, now, answer)
            &&& asked ==> a.service.may_answer(seg.payload, answer)
            &&& mid.item.behaviour() == a.service.behaviour
            &&& mid.item.memory() == if asked {
                answer.memory
            } else {
                a.service.memory
            }
            &&& told ==> (ServiceView {
                behaviour: mid.item.behaviour(),
                memory: mid.item.memory(),
            }).may_leave(farewell)
        }),
{
    lemma_fed(c.after_ack(seg, now), seg, answer);
}

/// What it is for a service to be allowed an answer or a farewell: its
/// behaviour says so for what it remembers, and silence is always allowed.
pub proof fn law_what_services_may_do(
    s: ServiceView,
    data: Seq<u8>,
    answer: Answer,
    farewell: Farewell,
)
    ensures
        s.may_answer(data, answer) == (s.behaviour.on_data)(s.memory, data, answer),
        s.may_leave(farewell) == ((s.behaviour.on_peer_close)(s.memory, farewell)
            || farewell.bytes.len() == 0 && farewell.memory == s.memory),
{
}

// ---------------------------------------------------------------- lists

/// The contents of lists of segments are those of their items, in order.
pub proof fn law_lists_of_segments(out: Seq<Outgoing>, flight: Seq<InFlight>, i: int)
    ensures
        out_views(out).len() == out.len(),
        sent_views(flight).len() == flight.len(),
        0 <= i < out.len() ==> out_views(out)[i] == (OutView {
            seq: out[i].seq,
            ack: out[i].ack,
            flags: out[i].flags,
            payload: out[i].payload@,
        }),
        0 <= i < flight.len() ==> sent_views(flight)[i] == (SentView {
            seq: flight[i].seq,
            data: flight[i].data@,
            flags: flight[i].flags,
        }),
{
}

} // verus!
