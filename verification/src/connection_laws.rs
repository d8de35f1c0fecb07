//! What holds of a TCP connection, whatever its service does.
use vstd::prelude::*;

use crate::connection_model::{
    chained, data_len, drop_acked, marked, marks, may_deliver, may_send, min, span, ConnView,
    OutView, SentView,
};
use crate::connection_proof::{
    lemma_acknowledged_wf, lemma_after_ack_wf, lemma_after_pieces_wf, lemma_chained_end,
    lemma_flush_out_small, lemma_flushed_wf, lemma_new_ack, lemma_no_pieces, lemma_opened_wf,
    lemma_piece, lemma_push,
};
use crate::packet::{flag_set, TcpView, ACK, FIN, PSH, RST, SYN};
use crate::seqno::{
    lemma_seq_add_add, lemma_seq_add_dist, lemma_seq_before_add, lemma_seq_dist_add, seq_add,
    seq_dist,
};
use crate::service::{echo_behaviour, Answer, Farewell, ServiceView};
use crate::tcp::{State, MAX_RETRIES, MSS, RTO_MS, TIME_WAIT_MS};

verus! {

// ---------------------------------------------------------------- sending

/// The data of segments, one after the other.
pub open spec fn stream(q: Seq<SentView>) -> Seq<u8>
    decreases q.len(),
{
    if q.len() == 0 {
        Seq::empty()
    } else {
        stream(q.drop_last()) + q.last().data
    }
}

/// What a connection was asked to send and has not seen acknowledged, as far
/// as it still keeps it.
pub open spec fn outstanding(c: ConnView) -> Seq<u8> {
    stream(c.unacked) + c.send_queue
}

proof fn lemma_stream_push(q: Seq<SentView>, s: SentView)
    ensures
        stream(q.push(s)) == stream(q) + s.data,
{
    assert(q.push(s).drop_last() =~= q);
}

proof fn lemma_stream_concat(a: Seq<SentView>, b: Seq<SentView>)
    ensures
        stream(a + b) == stream(a) + stream(b),
    decreases b.len(),
{
    if b.len() == 0 {
        assert(a + b =~= a);
    } else {
        lemma_stream_concat(a, b.drop_last());
        assert((a + b).drop_last() =~= a + b.drop_last());
    }
}

pub proof fn lemma_stream_len(q: Seq<SentView>)
    ensures
        stream(q).len() == data_len(q),
    decreases q.len(),
{
    if q.len() > 0 {
        lemma_stream_len(q.skip(1));
        assert(q =~= seq![q[0]] + q.skip(1));
        lemma_stream_concat(seq![q[0]], q.skip(1));
        assert(seq![q[0]].drop_last() =~= Seq::empty());
        reveal_with_fuel(stream, 2);
    }
}

/// The first `k` pieces hold the first bytes of the queue.
proof fn lemma_stream_of_pieces(c: ConnView, k: int)
    requires
        0 <= k <= c.piece_count(),
    ensures
        stream(c.pieces().take(k)) == c.send_queue.take(min(k * MSS, c.sendable() as int)),
        min(k * MSS, c.sendable() as int) <= c.send_queue.len(),
    decreases k,
{
    if k > 0 {
        lemma_stream_of_pieces(c, k - 1);
        lemma_piece(c, k - 1);
        assert(c.pieces().take(k) =~= c.pieces().take(k - 1).push(c.piece(k - 1)));
        lemma_stream_push(c.pieces().take(k - 1), c.piece(k - 1));
        assert(c.send_queue.take(min(k * MSS, c.sendable() as int)) =~= c.send_queue.take(
            (k - 1) * MSS,
        ) + c.piece(k - 1).data);
    } else {
        assert(c.pieces().take(0) =~= Seq::empty());
        assert(c.send_queue.take(0) =~= Seq::empty());
    }
}

/// The pieces hold all the bytes that the window has room for.
proof fn lemma_all_pieces(c: ConnView)
    ensures
        stream(c.pieces()) == c.send_queue.take(c.sendable() as int),
        c.sendable() <= c.send_queue.len(),
        min(c.piece_count() * MSS, c.sendable() as int) == c.sendable(),
{
    let k = c.piece_count() as int;
    lemma_stream_of_pieces(c, k);
    assert(c.pieces().take(k) =~= c.pieces());
    if k > 0 {
        lemma_piece(c, k - 1);
    }
}

/// The application's data are segmented by the MSS: every segment but the
/// last is full, and together they hold as much of the queue, from its front,
/// as the peer's window has room for.
pub proof fn law_segmentation(c: ConnView)
    ensures
        stream(c.pieces()) == c.send_queue.take(c.sendable() as int),
        forall|i: int|
            0 <= i < c.piece_count() ==> (#[trigger] c.pieces()[i]).data.len() == (if i + 1
                < c.piece_count() {
                MSS as int
            } else {
                c.sendable() - i * MSS
            }),
{
    lemma_all_pieces(c);
    assert forall|i: int| 0 <= i < c.piece_count() implies (#[trigger] c.pieces()[i]).data.len()
        == (if i + 1 < c.piece_count() {
        MSS as int
    } else {
        c.sendable() - i * MSS
    }) by {
        lemma_piece(c, i);
    }
}

/// A connection does not send past the peer's window: with what it sends, it
/// has no more in flight than the window is wide, unless it had before.
pub proof fn law_window_is_respected(c: ConnView, now: u64)
    requires
        c.wf(),
    ensures
        data_len(c.flushed(now).unacked) <= c.peer_window || data_len(c.flushed(now).unacked)
            == data_len(c.unacked),
{
    lemma_no_pieces(c, now);
    if c.state != State::Listen {
        let k = c.piece_count() as int;
        let d = c.after_pieces(k, now);
        lemma_after_pieces_wf(c, k, now);
        lemma_stream_len(d.unacked);
        lemma_stream_push(d.unacked, d.fin_segment());
        lemma_stream_len(d.unacked.push(d.fin_segment()));
    }
}

/// Nothing is lost or reordered by sending: what goes out comes from the
/// front of the queue and stays known until it is acknowledged.
pub proof fn law_sending_keeps_the_stream(c: ConnView, now: u64)
    ensures
        outstanding(c.flushed(now)) == outstanding(c),
{
    let k = c.piece_count() as int;
    let d = c.after_pieces(k, now);
    lemma_all_pieces(c);
    assert(c.pieces().take(k) =~= c.pieces());
    lemma_stream_concat(c.unacked, c.pieces());
    lemma_stream_push(d.unacked, d.fin_segment());
    assert(outstanding(d) =~= outstanding(c));
    assert(stream(d.unacked) + d.fin_segment().data =~= stream(d.unacked));
}

/// Sending cuts the queue into what goes out and what stays: no byte is lost,
/// repeated or reordered, and the segments are numbered one after the other
/// from the next number on. In a state that does not let it send, a
/// connection sends nothing and stays as it is.
pub proof fn law_sending_cuts_the_queue(c: ConnView, now: u64)
    ensures
        c.send_queue == payloads(c.flush_out()) + c.flushed(now).send_queue,
        c.flush_out().len() > 0 ==> c.flush_out()[0].seq == c.snd_nxt,
        forall|i: int|
            0 <= i < c.flush_out().len() - 1 ==> #[trigger] c.flush_out()[i + 1].seq == seq_add(
                c.flush_out()[i].seq,
                c.flush_out()[i].payload.len(),
            ),
        forall|i: int|
            0 <= i < c.flush_out().len() ==> (#[trigger] c.flush_out()[i]).payload.len() <= MSS,
        forall|i: int|
            0 <= i < c.flush_out().len() && (#[trigger] c.flush_out()[i]).payload.len() == 0
                ==> i == c.flush_out().len() - 1 && c.flush_out()[i].flags == FIN | ACK,
        !may_send(c.state) ==> c.flush_out().len() == 0 && c.flushed(now) == c,
{
    lemma_all_pieces(c);
    lemma_payloads(c);
    lemma_flush_out_small(c);
    lemma_no_pieces(c, now);
    lemma_no_pieces(c, 0);
    let out = c.flush_out();
    let n = c.piece_count() as int;
    assert(c.send_queue =~= c.send_queue.take(c.sendable() as int) + c.send_queue.skip(
        c.sendable() as int,
    ));
    assert forall|i: int| 0 <= i < n implies {
        &&& (#[trigger] out[i]).seq == seq_add(c.snd_nxt, (i * MSS) as nat)
        &&& out[i].payload == c.piece(i).data
        &&& out[i].payload.len() > 0
    } by {
        lemma_piece(c, i);
        assert(c.flush_segments()[i] == c.piece(i));
    }
    assert(seq_add(c.snd_nxt, 0) == c.snd_nxt);
    assert forall|i: int| 0 <= i < out.len() - 1 implies #[trigger] out[i + 1].seq == seq_add(
        out[i].seq,
        out[i].payload.len(),
    ) by {
        lemma_piece(c, i);
        lemma_seq_add_add(c.snd_nxt, (i * MSS) as nat, out[i].payload.len());
        if i + 1 < n {
            assert(out[i + 1].seq == seq_add(c.snd_nxt, ((i + 1) * MSS) as nat));
        }
    }
}

/// Sending fills the window: what goes out is all that is queued, or as much
/// of it as the peer's window has room for beside what is in flight, no more
/// and no less. A segment with data is pushed if and only if it empties the
/// queue.
pub proof fn law_sending_fills_the_window(c: ConnView)
    requires
        may_send(c.state),
    ensures
        payloads(c.flush_out()).len() == min(
            c.send_queue.len() as int,
            max(0, c.peer_window - data_len(c.unacked)),
        ),
        forall|i: int|
            0 <= i < c.flush_out().len() && (#[trigger] c.flush_out()[i]).payload.len() > 0
                ==> flag_set(c.flush_out()[i].flags, PSH) == (i * MSS
                + c.flush_out()[i].payload.len() == c.send_queue.len()),
{
    lemma_all_pieces(c);
    lemma_payloads(c);
    let out = c.flush_out();
    assert((8u8 | 0x10u8) & 8u8 != 0) by (bit_vector);
    assert((0u8 | 0x10u8) & 8u8 == 0) by (bit_vector);
    assert forall|i: int|
        0 <= i < out.len() && (#[trigger] out[i]).payload.len() > 0 implies flag_set(
        out[i].flags,
        PSH,
    ) == (i * MSS + out[i].payload.len() == c.send_queue.len()) by {
        lemma_piece(c, i);
        assert(c.flush_segments()[i] == c.piece(i));
    }
}

pub open spec fn max(a: int, b: int) -> int {
    if a < b {
        b
    } else {
        a
    }
}

/// The FIN goes out when the queue empties: it is sent if and only if it was
/// asked for, none was sent before, and the window has room for all that is
/// queued; then it is the last segment, and otherwise there is none.
pub proof fn law_fin_follows_the_queue(c: ConnView, now: u64)
    ensures
        ({
            let asked = c.fin_pending && (c.state == State::Established || c.state
                == State::CloseWait);
            let out = c.flush_segments();
            if asked && c.sendable() == c.send_queue.len() {
                &&& c.flushed(now).send_queue.len() == 0
                &&& c.flushed(now).state == (if c.state == State::CloseWait {
                    State::LastAck
                } else {
                    State::FinWait1
                })
                &&& out.len() > 0
                &&& out.last().flags == FIN
                &&& forall|i: int| 0 <= i < out.len() - 1 ==> !marked(#[trigger] out[i])
            } else {
                &&& c.flushed(now).state == c.state
                &&& forall|i: int| 0 <= i < out.len() ==> !marked(#[trigger] out[i])
            }
        }),
{
    lemma_all_pieces(c);
    let out = c.flush_segments();
    assert forall|i: int| 0 <= i < c.piece_count() implies !marked(#[trigger] out[i]) by {
        lemma_piece(c, i);
        assert(out[i] == c.piece(i));
    }
}

/// Segments are numbered by their place in the stream: between the first in
/// flight and any other lie as many numbers as the segments between them hold
/// bytes, SYNs and FINs.
pub proof fn law_numbers_follow_the_stream(c: ConnView, i: int)
    requires
        c.wf(),
        0 <= i < c.unacked.len(),
    ensures
        c.unacked[i].seq == seq_add(
            c.unacked[0].seq,
            data_len(c.unacked.take(i)) + marks(c.unacked.take(i)),
        ),
        c.snd_nxt == seq_add(c.unacked[0].seq, data_len(c.unacked) + marks(c.unacked)),
{
    lemma_chained_end(c.unacked, c.unacked[0].seq, c.snd_nxt);
    lemma_chained_at(c.unacked, c.unacked[0].seq, c.snd_nxt, i);
}

proof fn lemma_chained_at(q: Seq<SentView>, start: u32, end: u32, i: int)
    requires
        chained(q, start, end),
        0 <= i < q.len(),
    ensures
        q[i].seq == seq_add(start, data_len(q.take(i)) + marks(q.take(i))),
    decreases i,
{
    if i == 0 {
        assert(q.take(0) =~= Seq::empty());
        assert(seq_add(start, 0) == start);
    } else {
        let rest = q.skip(1);
        let next = seq_add(start, span(q[0]));
        lemma_chained_at(rest, next, end, i - 1);
        assert(q.take(i).skip(1) =~= rest.take(i - 1));
        assert(q.take(i)[0] == q[0]);
        assert(rest[i - 1] == q[i]);
        lemma_seq_add_add(
            start,
            span(q[0]),
            data_len(rest.take(i - 1)) + marks(rest.take(i - 1)),
        );
    }
}

// ---------------------------------------------------------------- acknowledgements

/// Nothing is in flight if and only if everything sent was acknowledged.
pub proof fn law_idle_when_all_is_acknowledged(c: ConnView)
    requires
        c.wf(),
    ensures
        (c.unacked.len() == 0) == (c.snd_una == c.snd_nxt),
{
    if c.unacked.len() > 0 {
        let start = c.unacked[0].seq;
        let total = data_len(c.unacked) + marks(c.unacked);
        lemma_chained_end(c.unacked, start, c.snd_nxt);
        lemma_seq_dist_add(start, total);
        assert(span(c.unacked[0]) <= total);
    }
}

/// An acknowledgement of everything leaves nothing in flight.
pub proof fn law_full_acknowledgement(c: ConnView)
    requires
        c.wf(),
    ensures
        c.acknowledged(c.snd_nxt).unacked.len() == 0,
        c.acknowledged(c.snd_nxt).snd_una == c.snd_nxt,
{
    law_idle_when_all_is_acknowledged(c);
    if c.unacked.len() > 0 {
        let start = c.unacked[0].seq;
        let total = data_len(c.unacked) + marks(c.unacked);
        lemma_chained_end(c.unacked, start, c.snd_nxt);
        lemma_seq_add_dist(start, c.snd_una);
        assert(span(c.unacked[0]) <= total);
        lemma_seq_before_add(start, seq_dist(start, c.snd_una), total);
        assert(c.is_new_ack(c.snd_nxt));
        lemma_acknowledged_wf(c, c.snd_nxt);
        law_idle_when_all_is_acknowledged(c.acknowledged(c.snd_nxt));
    }
}

/// An acknowledgement takes bytes away from the front of the stream, and none
/// that it does not cover.
pub proof fn law_acknowledgement_takes_what_arrived(c: ConnView, ack: u32)
    requires
        c.wf(),
    ensures
        ({
            let d = c.acknowledged(ack);
            let n = outstanding(c).len() - outstanding(d).len();
            &&& 0 <= n
            &&& outstanding(d) == outstanding(c).skip(n)
            &&& d.send_queue == c.send_queue
            &&& c.is_new_ack(ack) ==> n <= seq_dist(c.unacked[0].seq, ack)
            &&& !c.is_new_ack(ack) ==> d == c
        }),
{
    let d = c.acknowledged(ack);
    if c.is_new_ack(ack) {
        lemma_new_ack(c, ack);
        let start = c.unacked[0].seq;
        let n = lemma_acked_stream(c.unacked, start, c.snd_nxt, seq_dist(start, ack));
        assert(outstanding(d) =~= outstanding(c).skip(n as int));
    } else {
        assert(outstanding(c).skip(0) =~= outstanding(c));
    }
}

proof fn lemma_acked_stream(q: Seq<SentView>, start: u32, end: u32, a: nat) -> (n: nat)
    requires
        chained(q, start, end),
        a <= data_len(q) + marks(q) <= 0x7FFF_FFFF,
    ensures
        n <= a,
        n <= stream(q).len(),
        stream(drop_acked(q, seq_add(start, a))) == stream(q).skip(n as int),
    decreases q.len(),
{
    if q.len() == 0 {
        assert(stream(q).skip(0) =~= stream(q));
        0
    } else {
        let s = span(q[0]);
        lemma_seq_before_add(start, a, s);
        if a >= s {
            lemma_seq_add_add(start, s, (a - s) as nat);
            let n = lemma_acked_stream(q.skip(1), seq_add(start, s), end, (a - s) as nat);
            assert(q =~= seq![q[0]] + q.skip(1));
            lemma_stream_concat(seq![q[0]], q.skip(1));
            assert(seq![q[0]].drop_last() =~= Seq::empty());
            reveal_with_fuel(stream, 2);
            assert(stream(seq![q[0]]) =~= q[0].data);
            let all = q[0].data.len() + n;
            assert(stream(q.skip(1)).skip(n as int) =~= stream(q).skip(all as int));
            all
        } else {
            assert(stream(q).skip(0) =~= stream(q));
            0
        }
    }
}

/// How many bytes of the stream the acknowledgement of a segment takes away.
pub open spec fn confirmed(c: ConnView, seg: TcpView, now: u64) -> int {
    outstanding(c).len() - outstanding(c.after_ack(seg, now)).len()
}

/// A segment changes the stream in two ways only: its acknowledgement takes
/// bytes away from the front, and what the service answers and says in
/// parting joins it at the end.
pub proof fn law_segments_keep_the_stream(
    c: ConnView,
    seg: TcpView,
    now: u64,
    answer: Answer,
    farewell: Farewell,
)
    requires
        c.wf(),
        c.goes_on(seg, now),
    ensures
        ({
            let acked = c.after_ack(seg, now);
            let fed = acked.after_data(seg, answer);
            let reply = if acked.delivers(seg) {
                answer.reply
            } else {
                Seq::empty()
            };
            let last = if fed.tells_service(seg) {
                farewell.bytes
            } else {
                Seq::empty()
            };
            &&& 0 <= confirmed(c, seg, now)
            &&& outstanding(c.after_segment(seg, now, answer, farewell)) == outstanding(c).skip(
                confirmed(c, seg, now),
            ) + reply + last
        }),
{
    let acked = c.after_ack(seg, now);
    let fed = acked.after_data(seg, answer);
    lemma_ack_stream(c, seg, now);
    lemma_data_stream(acked, seg, answer);
    lemma_fin_stream(fed, seg, farewell, now);
    law_sending_keeps_the_stream(fed.after_fin(seg, farewell, now), now);
}

proof fn lemma_ack_stream(c: ConnView, seg: TcpView, now: u64)
    requires
        c.wf(),
    ensures
        0 <= confirmed(c, seg, now),
        outstanding(c.after_ack(seg, now)) == outstanding(c).skip(confirmed(c, seg, now)),
{
    law_acknowledgement_takes_what_arrived(c, seg.ack);
    assert(outstanding(c).skip(0) =~= outstanding(c));
}

proof fn lemma_data_stream(c: ConnView, seg: TcpView, answer: Answer)
    ensures
        outstanding(c.after_data(seg, answer)) == outstanding(c) + if c.delivers(seg) {
            answer.reply
        } else {
            Seq::empty()
        },
{
    assert(stream(c.unacked) + (c.send_queue + answer.reply) =~= outstanding(c) + answer.reply);
    assert(outstanding(c) + Seq::<u8>::empty() =~= outstanding(c));
    assert(c.send_queue + Seq::<u8>::empty() =~= c.send_queue);
}

proof fn lemma_fin_stream(c: ConnView, seg: TcpView, farewell: Farewell, now: u64)
    ensures
        outstanding(c.after_fin(seg, farewell, now)) == outstanding(c) + if c.tells_service(seg) {
            farewell.bytes
        } else {
            Seq::empty()
        },
{
    assert(stream(c.unacked) + (c.send_queue + farewell.bytes) =~= outstanding(c) + farewell.bytes);
    assert(outstanding(c) + Seq::<u8>::empty() =~= outstanding(c));
}

/// The passing of time loses nothing of the stream.
pub proof fn law_time_keeps_the_stream(c: ConnView, now: u64)
    ensures
        outstanding(c.after_tick(now)) == outstanding(c),
{
    law_sending_keeps_the_stream(c, now);
    law_sending_keeps_the_stream(c.retried(now), now);
}

// ---------------------------------------------------------------- receiving

/// Data are handed over in order: those that are next go to the service
/// whole, and the connection then expects what follows them.
pub proof fn law_data_in_order_are_delivered(
    c: ConnView,
    seg: TcpView,
    now: u64,
    answer: Answer,
    farewell: Farewell,
)
    requires
        c.goes_on(seg, now),
        may_deliver(c.after_ack(seg, now).state),
        seg.payload.len() > 0,
        seg.seq == c.rcv_nxt,
        c.may_react(seg, now, answer, farewell),
    ensures
        c.service.may_answer(seg.payload, answer),
        c.after_segment(seg, now, answer, farewell).rcv_nxt == seq_add(
            seg.seq,
            seg.payload.len() + if seg.has(FIN) {
                1nat
            } else {
                0
            },
        ),
        !seg.has(FIN) ==> c.after_segment(seg, now, answer, farewell).service.memory
            == answer.memory,
{
    lemma_seq_add_add(seg.seq, seg.payload.len(), 1);
    assert(c.after_ack(seg, now).rcv_nxt == c.rcv_nxt);
    assert(c.after_ack(seg, now).service == c.service);
}

/// Whether the service is asked for an answer: the segment brings data that
/// are next in order, in a state that lets the service have them.
pub open spec fn asks(c: ConnView, seg: TcpView, now: u64) -> bool {
    let state = c.after_ack(seg, now).state;
    &&& c.goes_on(seg, now)
    &&& seg.payload.len() > 0
    &&& seg.seq == c.rcv_nxt
    &&& state == State::Established || state == State::FinWait1 || state == State::FinWait2
}

/// Whether the service is told of the end of the peer's stream: the segment
/// has a FIN that is next in order, in a state before any close.
pub open spec fn tells(c: ConnView, seg: TcpView, now: u64) -> bool {
    let state = c.after_ack(seg, now).state;
    &&& c.goes_on(seg, now)
    &&& seg.has(FIN)
    &&& seg.seq == c.rcv_nxt || seq_add(seg.seq, seg.payload.len()) == c.rcv_nxt
    &&& state == State::Established || state == State::SynReceived
}

/// The service when it has given its answer, if it was asked.
pub open spec fn service_fed(c: ConnView, seg: TcpView, now: u64, answer: Answer) -> ServiceView {
    if asks(c, seg, now) {
        ServiceView { memory: answer.memory, ..c.service }
    } else {
        c.service
    }
}

/// When the service is asked: for an answer if and only if data in order come
/// in a state for them, and then to exactly the data of the segment; for its
/// last words, after that, if and only if the peer's stream ends in order
/// before any close. The service changes by these calls alone.
pub proof fn law_when_the_service_is_asked(
    c: ConnView,
    seg: TcpView,
    now: u64,
    answer: Answer,
    farewell: Farewell,
)
    requires
        c.may_react(seg, now, answer, farewell),
    ensures
        asks(c, seg, now) == c.asks_service(seg, now),
        tells(c, seg, now) == c.asks_farewell(seg, now, answer),
        asks(c, seg, now) ==> c.service.may_answer(seg.payload, answer),
        tells(c, seg, now) ==> service_fed(c, seg, now, answer).may_leave(farewell),
        c.after_segment(seg, now, answer, farewell).service == (if tells(c, seg, now) {
            ServiceView { memory: farewell.memory, ..service_fed(c, seg, now, answer) }
        } else {
            service_fed(c, seg, now, answer)
        }),
{
    lemma_asked(c, seg, now, answer);
    if c.goes_on(seg, now) {
        let over = c.taken_in(seg, now, answer, farewell);
        lemma_flush_keeps_service(over, now);
    }
}

/// What the service would have said makes no difference where it is not
/// asked.
pub proof fn law_unasked_services_are_not_heard(
    c: ConnView,
    seg: TcpView,
    now: u64,
    answer: Answer,
    farewell: Farewell,
    other_answer: Answer,
    other_farewell: Farewell,
)
    requires
        asks(c, seg, now) ==> answer == other_answer,
        tells(c, seg, now) ==> farewell == other_farewell,
    ensures
        c.after_segment(seg, now, answer, farewell) == c.after_segment(
            seg,
            now,
            other_answer,
            other_farewell,
        ),
        c.segment_out(seg, now, answer, farewell) == c.segment_out(
            seg,
            now,
            other_answer,
            other_farewell,
        ),
{
    lemma_asked(c, seg, now, answer);
    if c.goes_on(seg, now) {
        let acked = c.after_ack(seg, now);
        let fed = acked.after_data(seg, answer);
        assert(fed == acked.after_data(seg, other_answer));
        assert(fed.after_fin(seg, farewell, now) == fed.after_fin(seg, other_farewell, now));
    }
}

pub proof fn lemma_asked(c: ConnView, seg: TcpView, now: u64, answer: Answer)
    ensures
        ({
            let acked = c.after_ack(seg, now);
            let fed = acked.after_data(seg, answer);
            &&& acked.service == c.service
            &&& c.goes_on(seg, now) ==> asks(c, seg, now) == acked.delivers(seg)
            &&& c.goes_on(seg, now) ==> tells(c, seg, now) == fed.tells_service(seg)
            &&& c.goes_on(seg, now) ==> fed.service == service_fed(c, seg, now, answer)
        }),
{
    assert(c.after_ack(seg, now).rcv_nxt == c.rcv_nxt);
    assert(seq_add(seg.seq, 0) == seg.seq);
}

proof fn lemma_flush_keeps_service(c: ConnView, now: u64)
    ensures
        c.flushed(now).service == c.service,
{
}

/// Data out of order are re-acknowledged and not consumed: neither the
/// service nor what is expected changes, nothing joins the stream, and the
/// peer is told again what is expected.
pub proof fn law_data_out_of_order_are_reacked(
    c: ConnView,
    seg: TcpView,
    now: u64,
    answer: Answer,
    farewell: Farewell,
)
    requires
        c.wf(),
        c.goes_on(seg, now),
        seg.payload.len() > 0,
        seg.seq != c.rcv_nxt,
        !c.takes_fin(seg),
    ensures
        ({
            let d = c.after_segment(seg, now, answer, farewell);
            let out = c.segment_out(seg, now, answer, farewell);
            &&& d.service == c.service
            &&& d.rcv_nxt == c.rcv_nxt
            &&& outstanding(d) == outstanding(c).skip(confirmed(c, seg, now))
            &&& out.len() > 0
            &&& forall|i: int| 0 <= i < out.len() ==> (#[trigger] out[i]).ack == c.rcv_nxt
        }),
{
    let acked = c.after_ack(seg, now);
    assert(acked.rcv_nxt == c.rcv_nxt);
    assert(acked.after_data(seg, answer) == acked);
    assert(acked.after_fin(seg, farewell, now) == acked);
    law_segments_keep_the_stream(c, seg, now, answer, farewell);
    let rest = outstanding(c).skip(confirmed(c, seg, now));
    assert(rest + Seq::<u8>::empty() + Seq::<u8>::empty() =~= rest);
}

/// No data are consumed twice: a segment whose data have been taken in
/// brings nothing new when it comes again.
pub proof fn law_data_are_consumed_once(c: ConnView, seg: TcpView, answer: Answer)
    requires
        c.takes_data(seg),
        seg.payload.len() < 0x1_0000_0000,
    ensures
        !c.after_data(seg, answer).takes_data(seg),
{
    lemma_seq_dist_add(seg.seq, seg.payload.len());
}

/// Every segment that a connection sends in answer to another carries an
/// acknowledgement of all that has arrived in order.
pub proof fn law_answers_acknowledge(
    c: ConnView,
    seg: TcpView,
    now: u64,
    answer: Answer,
    farewell: Farewell,
)
    ensures
        ({
            let out = c.segment_out(seg, now, answer, farewell);
            forall|i: int|
                0 <= i < out.len() ==> {
                    &&& (#[trigger] out[i]).ack == c.after_segment(
                        seg,
                        now,
                        answer,
                        farewell,
                    ).rcv_nxt
                    &&& flag_set(out[i].flags, ACK)
                }
        }),
{
    assert(forall|f: u8| #[trigger] (f | 0x10u8) & 0x10u8 != 0) by (bit_vector);
}

/// So does every segment that it sends as time passes.
pub proof fn law_repetitions_acknowledge(c: ConnView, now: u64)
    ensures
        forall|i: int|
            0 <= i < c.tick_out(now).len() ==> {
                &&& (#[trigger] c.tick_out(now)[i]).ack == c.rcv_nxt
                &&& flag_set(c.tick_out(now)[i].flags, ACK)
            },
{
    assert(forall|f: u8| #[trigger] (f | 0x10u8) & 0x10u8 != 0) by (bit_vector);
    assert forall|i: int| 0 <= i < c.tick_out(now).len() implies {
        &&& (#[trigger] c.tick_out(now)[i]).ack == c.rcv_nxt
        &&& flag_set(c.tick_out(now)[i].flags, ACK)
    } by {
        if c.overdue(now) && i > 0 {
            assert(c.tick_out(now)[i] == c.flush_out()[i - 1]);
        }
    }
}

// ---------------------------------------------------------------- time

/// A segment that was not acknowledged in time is sent again: the oldest in
/// flight, with the same number and the same data.
pub proof fn law_retransmission(c: ConnView, now: u64)
    requires
        c.overdue(now),
        c.retries < MAX_RETRIES,
        !c.wait_over(now),
    ensures
        c.tick_out(now).len() > 0,
        c.tick_out(now)[0].seq == c.unacked[0].seq,
        c.tick_out(now)[0].payload == c.unacked[0].data,
        c.after_tick(now).unacked.len() > 0,
        c.after_tick(now).unacked[0] == c.unacked[0],
        c.after_tick(now).retries == c.retries + 1,
        c.after_tick(now).last_send_ms == now,
        c.state != State::Closed ==> c.after_tick(now).state != State::Closed,
        c.state != State::TimeWait ==> c.after_tick(now).state != State::TimeWait,
{
    let r = c.retried(now);
    let k = r.piece_count() as int;
    let d = r.after_pieces(k, now);
    assert(d.unacked[0] == c.unacked[0]);
    assert(r.flushed(now).unacked[0] == c.unacked[0]);
}

/// Before the timeout nothing is repeated, and a connection with nothing to
/// send stays as it is.
pub proof fn law_quiet_before_the_timeout(c: ConnView, now: u64)
    requires
        !c.overdue(now),
        !c.wait_over(now),
        c.send_queue.len() == 0,
        !c.fin_pending,
    ensures
        c.tick_out(now).len() == 0,
        c.after_tick(now) == c,
{
    lemma_nothing_to_send(c, now);
}

/// A connection with an empty queue and no FIN to send sends nothing.
pub proof fn lemma_nothing_to_send(c: ConnView, now: u64)
    requires
        c.send_queue.len() == 0,
        !c.fin_pending,
    ensures
        c.flushed(now) == c,
        c.flush_out() == Seq::<OutView>::empty(),
{
    lemma_no_pieces(c, now);
    lemma_no_pieces(c, 0);
    assert(c.flush_out() =~= Seq::empty());
}

/// Sending again at once sends nothing: a connection has sent all that it
/// could.
pub proof fn law_sending_is_complete(c: ConnView, now: u64)
    requires
        c.wf(),
    ensures
        c.flushed(now).flushed(now) == c.flushed(now),
        c.flushed(now).flush_out().len() == 0,
{
    lemma_all_pieces(c);
    lemma_no_pieces(c, now);
    let k = c.piece_count() as int;
    let mid = c.after_pieces(k, now);
    let d = c.flushed(now);
    if c.state != State::Listen {
        lemma_after_pieces_wf(c, k, now);
        lemma_push(mid.unacked, mid.fin_segment());
        assert(data_len(d.unacked) == data_len(c.unacked) + c.sendable());
    }
    assert(d.sendable() == 0);
    lemma_no_pieces(d, now);
    lemma_no_pieces(d, 0);
    assert(d.pieces().len() == 0);
    assert(!d.sends_fin());
}

/// The passing of time has its effect once: a second time at the same moment
/// nothing is sent and nothing changes.
pub proof fn law_time_passes_once(c: ConnView, now: u64)
    requires
        c.wf(),
        c.after_tick(now).state != State::Closed,
    ensures
        c.after_tick(now).after_tick(now) == c.after_tick(now),
        c.after_tick(now).tick_out(now).len() == 0,
{
    let before = if c.overdue(now) {
        c.retried(now)
    } else {
        c
    };
    let d = before.flushed(now);
    assert(before.wf());
    law_sending_is_complete(before, now);
    lemma_idle_flush(before, now);
    assert(!d.overdue(now) && !d.wait_over(now));
}

/// A connection that sends nothing keeps what is in flight and its clock.
proof fn lemma_idle_flush(c: ConnView, now: u64)
    ensures
        c.flushed(now).last_send_ms == now || c.flushed(now) == c,
        c.flushed(now).retries == c.retries,
        c.flushed(now).time_wait_started == c.time_wait_started,
        c.flushed(now).state == State::TimeWait ==> c.state == State::TimeWait,
{
    lemma_no_pieces(c, now);
}

/// The connection after the passing of time up to each of some moments.
pub open spec fn ticked(c: ConnView, times: Seq<u64>) -> ConnView
    decreases times.len(),
{
    if times.len() == 0 {
        c
    } else {
        ticked(c, times.drop_last()).after_tick(times.last())
    }
}

/// Whether each of some moments is a timeout after the one before, and the
/// first is one after the last transmission.
pub open spec fn a_timeout_apart(c: ConnView, times: Seq<u64>) -> bool {
    forall|i: int|
        0 <= i < times.len() ==> #[trigger] times[i] >= RTO_MS + if i == 0 {
            c.last_send_ms
        } else {
            times[i - 1]
        }
}

/// A connection whose peer never answers repeats its oldest segment at every
/// timeout, and gives up at the timeout after the sixth repetition.
pub proof fn law_gives_up_after_six_tries(c: ConnView, times: Seq<u64>)
    requires
        c.wf(),
        c.unacked.len() > 0,
        c.state != State::TimeWait,
        c.state != State::Closed,
        a_timeout_apart(c, times),
    ensures
        c.retries + times.len() <= 6 ==> {
            let d = ticked(c, times);
            &&& d.state != State::Closed
            &&& d.state != State::TimeWait
            &&& d.retries == c.retries + times.len()
            &&& d.unacked.len() > 0
            &&& d.unacked[0] == c.unacked[0]
            &&& d.last_send_ms == if times.len() == 0 {
                c.last_send_ms
            } else {
                times.last()
            }
        },
        c.retries + times.len() > 6 ==> ticked(c, times).state == State::Closed,
    decreases times.len(),
{
    if times.len() > 0 {
        let before = times.drop_last();
        let now = times.last();
        assert forall|i: int| 0 <= i < before.len() implies #[trigger] before[i] >= RTO_MS + if i
            == 0 {
            c.last_send_ms
        } else {
            before[i - 1]
        } by {
            assert(times[i] == before[i]);
        }
        law_gives_up_after_six_tries(c, before);
        let d = ticked(c, before);
        assert(times[times.len() - 1] == now);
        if c.retries + before.len() <= 6 {
            assert(d.overdue(now));
            if d.retries < 6 {
                law_retransmission(d, now);
            }
        } else {
            law_closed_stays_closed(d, now);
        }
    }
}

/// A closed connection stays closed as time passes.
pub proof fn law_closed_stays_closed(c: ConnView, now: u64)
    requires
        c.state == State::Closed,
    ensures
        c.after_tick(now).state == State::Closed,
{
}

/// TIME-WAIT ends after two seconds, without a word; until then a connection
/// with nothing in flight just waits.
pub proof fn law_time_wait(c: ConnView, now: u64)
    requires
        c.wf(),
        c.state == State::TimeWait,
    ensures
        now - c.time_wait_started >= TIME_WAIT_MS ==> c.after_tick(now).state == State::Closed
            && c.tick_out(now).len() == 0,
        now - c.time_wait_started < TIME_WAIT_MS && c.unacked.len() == 0 ==> c.after_tick(now) == c
            && c.tick_out(now).len() == 0,
{
    lemma_no_pieces(c, now);
    lemma_no_pieces(c, 0);
}

// ---------------------------------------------------------------- the life of a connection

/// A connection keeps its peers and its kind of service for life.
pub proof fn law_identity_stays(
    c: ConnView,
    seg: TcpView,
    now: u64,
    answer: Answer,
    farewell: Farewell,
)
    ensures
        ({
            let d = c.after_segment(seg, now, answer, farewell);
            &&& d.local == c.local
            &&& d.remote == c.remote
            &&& d.service.behaviour == c.service.behaviour
        }),
        c.after_tick(now).local == c.local,
        c.after_tick(now).remote == c.remote,
        c.after_tick(now).service == c.service,
{
}

/// A reset closes a connection without a word.
pub proof fn law_reset_closes(
    c: ConnView,
    seg: TcpView,
    now: u64,
    answer: Answer,
    farewell: Farewell,
)
    requires
        seg.has(RST),
    ensures
        c.after_segment(seg, now, answer, farewell) == (ConnView { state: State::Closed, ..c }),
        c.segment_out(seg, now, answer, farewell).len() == 0,
{
}

/// A closed connection answers nothing and stays as it is.
pub proof fn law_closed_is_silent(
    c: ConnView,
    seg: TcpView,
    now: u64,
    answer: Answer,
    farewell: Farewell,
)
    requires
        c.state == State::Closed,
    ensures
        c.after_segment(seg, now, answer, farewell) == c,
        c.segment_out(seg, now, answer, farewell).len() == 0,
{
}

/// A SYN on an established connection with nothing to send is ignored.
pub proof fn law_syn_on_established_is_ignored(
    c: ConnView,
    seg: TcpView,
    now: u64,
    answer: Answer,
    farewell: Farewell,
)
    requires
        c.state == State::Established,
        c.send_queue.len() == 0,
        !c.fin_pending,
        seg.has(SYN),
        !seg.has(ACK),
        !seg.has(FIN),
        !seg.has(RST),
        seg.payload.len() == 0,
    ensures
        c.after_segment(seg, now, answer, farewell) == c,
        c.segment_out(seg, now, answer, farewell).len() == 0,
{
    lemma_nothing_to_send(c, now);
}

/// The three-way handshake: a new connection answers a SYN by its own, which
/// acknowledges the peer's, and is established once that is acknowledged.
pub proof fn law_three_way_handshake(
    c: ConnView,
    syn: TcpView,
    ack: TcpView,
    t1: u64,
    t2: u64,
    answer: Answer,
    farewell: Farewell,
)
    requires
        c.wf(),
        c.state == State::Listen,
        c.send_queue.len() == 0,
        !c.fin_pending,
        syn.has(SYN),
        !syn.has(RST),
        ack.has(ACK),
        !ack.has(FIN),
        !ack.has(RST),
        ack.payload.len() == 0,
        ack.ack == seq_add(c.snd_nxt, 1),
    ensures
        ({
            let c1 = c.after_segment(syn, t1, answer, farewell);
            let c2 = c1.after_segment(ack, t2, answer, farewell);
            &&& c1.state == State::SynReceived
            &&& c.segment_out(syn, t1, answer, farewell) == seq![
                OutView {
                    seq: c.snd_nxt,
                    ack: seq_add(syn.seq, 1),
                    flags: SYN | ACK,
                    payload: Seq::empty(),
                },
            ]
            &&& c2.state == State::Established
            &&& c1.segment_out(ack, t2, answer, farewell).len() == 0
            &&& c2.unacked.len() == 0
            &&& c2.snd_nxt == seq_add(c.snd_nxt, 1)
            &&& c2.rcv_nxt == seq_add(syn.seq, 1)
        }),
{
    let c1 = c.opened(syn, t1);
    lemma_opened_wf(c, syn, t1);
    law_full_acknowledgement(c1);
    lemma_bare_ack(c1, ack, t2, answer, farewell);
}

/// The peer closes first: an established connection with nothing queued
/// answers the FIN by its own, which acknowledges the peer's, if its service
/// has no last word, and is closed once that is acknowledged.
pub proof fn law_peer_closes_first(
    c: ConnView,
    fin: TcpView,
    ack: TcpView,
    t1: u64,
    t2: u64,
    answer: Answer,
    farewell: Farewell,
)
    requires
        c.wf(),
        c.state == State::Established,
        c.send_queue.len() == 0,
        fin.has(FIN),
        !fin.has(RST),
        fin.payload.len() == 0,
        fin.seq == c.rcv_nxt,
        farewell.bytes.len() == 0,
        ack.has(ACK),
        !ack.has(RST),
        ack.ack == seq_add(c.snd_nxt, 1),
    ensures
        ({
            let c1 = c.after_segment(fin, t1, answer, farewell);
            let c2 = c1.after_segment(ack, t2, answer, farewell);
            &&& c1.state == State::LastAck
            &&& c.segment_out(fin, t1, answer, farewell) == seq![
                OutView {
                    seq: c.snd_nxt,
                    ack: seq_add(fin.seq, 1),
                    flags: FIN | ACK,
                    payload: Seq::empty(),
                },
            ]
            &&& c2.state == State::Closed
            &&& c1.segment_out(ack, t2, answer, farewell).len() == 0
        }),
{
    lemma_answers_fin(c, fin, t1, answer, farewell);
    lemma_last_ack(c.after_segment(fin, t1, answer, farewell), ack, t2, answer, farewell);
}

/// A FIN is answered by one of our own.
proof fn lemma_answers_fin(
    c: ConnView,
    fin: TcpView,
    now: u64,
    answer: Answer,
    farewell: Farewell,
)
    requires
        c.wf(),
        c.state == State::Established,
        c.send_queue.len() == 0,
        fin.has(FIN),
        !fin.has(RST),
        fin.payload.len() == 0,
        fin.seq == c.rcv_nxt,
        farewell.bytes.len() == 0,
    ensures
        ({
            let d = c.after_segment(fin, now, answer, farewell);
            &&& d.wf()
            &&& d.state == State::LastAck
            &&& d.snd_nxt == seq_add(c.snd_nxt, 1)
        }),
        c.segment_out(fin, now, answer, farewell) == seq![
            OutView {
                seq: c.snd_nxt,
                ack: seq_add(fin.seq, 1),
                flags: FIN | ACK,
                payload: Seq::empty(),
            },
        ],
{
    let acked = c.after_ack(fin, now);
    lemma_after_ack_wf(c, fin, now);
    assert(seq_add(fin.seq, 0) == fin.seq);
    assert(acked.after_data(fin, answer) == acked);
    let over = acked.after_fin(fin, farewell, now);
    assert(over.send_queue =~= Seq::empty());
    assert(over.wf());
    lemma_no_pieces(over, now);
    lemma_no_pieces(over, 0);
    assert(over.flush_out() =~= seq![
        OutView {
            seq: c.snd_nxt,
            ack: seq_add(fin.seq, 1),
            flags: FIN | ACK,
            payload: Seq::empty(),
        },
    ]);
    lemma_flushed_wf(over, now);
}

/// The acknowledgement of everything ends a connection that both sides have
/// closed.
proof fn lemma_last_ack(
    c: ConnView,
    ack: TcpView,
    now: u64,
    answer: Answer,
    farewell: Farewell,
)
    requires
        c.wf(),
        c.state == State::LastAck,
        ack.has(ACK),
        !ack.has(RST),
        ack.ack == c.snd_nxt,
    ensures
        c.after_segment(ack, now, answer, farewell).state == State::Closed,
        c.segment_out(ack, now, answer, farewell).len() == 0,
{
    law_full_acknowledgement(c);
}

/// We close first, the sending half: when the service answers and asks to
/// close, and the window has room for all that is queued, all of it goes out
/// at once with a FIN after it.
pub proof fn law_we_close_first(
    c: ConnView,
    seg: TcpView,
    now: u64,
    answer: Answer,
    farewell: Farewell,
)
    requires
        c.wf(),
        c.state == State::Established,
        seg.payload.len() > 0,
        seg.seq == c.rcv_nxt,
        !seg.has(FIN),
        !seg.has(RST),
        answer.close,
        ({
            let acked = c.after_ack(seg, now);
            data_len(acked.unacked) + acked.send_queue.len() + answer.reply.len()
                <= acked.peer_window
        }),
    ensures
        ({
            let d = c.after_segment(seg, now, answer, farewell);
            let out = c.segment_out(seg, now, answer, farewell);
            &&& d.state == State::FinWait1
            &&& d.send_queue.len() == 0
            &&& !d.fin_pending
            &&& d.wf()
            &&& out.len() > 0
            &&& out.last().flags == FIN | ACK
            &&& seq_add(out.last().seq, 1) == d.snd_nxt
            &&& payloads(out) == c.send_queue + answer.reply
        }),
{
    let acked = c.after_ack(seg, now);
    lemma_after_ack_wf(c, seg, now);
    let fed = acked.after_data(seg, answer);
    assert(fed.after_fin(seg, farewell, now) == fed) by {
        lemma_no_fin(fed, seg, farewell, now);
    }
    lemma_all_pieces(fed);
    assert(fed.sendable() == fed.send_queue.len());
    let d = fed.after_pieces(fed.piece_count() as int, now);
    lemma_flushed_wf(fed, now);
    lemma_payloads(fed);
    assert(fed.flush_segments().last() == d.fin_segment());
}

/// A segment without a FIN ends nothing.
proof fn lemma_no_fin(c: ConnView, seg: TcpView, farewell: Farewell, now: u64)
    requires
        !seg.has(FIN),
    ensures
        c.after_fin(seg, farewell, now) == c,
{
}

/// We close first, the rest: once everything is acknowledged the connection
/// waits for the peer's FIN, acknowledges it, and is gone two seconds later.
pub proof fn law_then_the_peer_closes(
    c: ConnView,
    ack: TcpView,
    fin: TcpView,
    t1: u64,
    t2: u64,
    t3: u64,
    answer: Answer,
    farewell: Farewell,
)
    requires
        c.wf(),
        c.state == State::FinWait1,
        c.send_queue.len() == 0,
        !c.fin_pending,
        ack.has(ACK),
        !ack.has(FIN),
        !ack.has(RST),
        ack.payload.len() == 0,
        ack.ack == c.snd_nxt,
        fin.has(FIN),
        !fin.has(RST),
        fin.payload.len() == 0,
        fin.seq == c.rcv_nxt,
        t3 - t2 >= TIME_WAIT_MS,
    ensures
        ({
            let c1 = c.after_segment(ack, t1, answer, farewell);
            let c2 = c1.after_segment(fin, t2, answer, farewell);
            let c3 = c2.after_tick(t3);
            &&& c1.state == State::FinWait2
            &&& c.segment_out(ack, t1, answer, farewell).len() == 0
            &&& c2.state == State::TimeWait
            &&& c1.segment_out(fin, t2, answer, farewell) == seq![
                OutView {
                    seq: c.snd_nxt,
                    ack: seq_add(fin.seq, 1),
                    flags: 0 | ACK,
                    payload: Seq::empty(),
                },
            ]
            &&& c3.state == State::Closed
            &&& c2.tick_out(t3).len() == 0
        }),
{
    law_full_acknowledgement(c);
    lemma_after_ack_wf(c, ack, t1);
    lemma_bare_ack(c, ack, t1, answer, farewell);
    let c1 = c.after_ack(ack, t1);
    let acked = c1.after_ack(fin, t2);
    assert(acked.unacked.len() == 0 && acked.state == State::FinWait2);
    assert(acked.after_data(fin, answer) == acked);
    assert(seq_add(fin.seq, 0) == fin.seq);
    let over = acked.after_fin(fin, farewell, t2);
    lemma_nothing_to_send(over, t2);
}

/// Both close at once: a FIN that comes before the acknowledgement of our own,
/// whatever else it acknowledges, is acknowledged, and the connection waits
/// its time once ours is too.
pub proof fn law_both_close(
    c: ConnView,
    fin: TcpView,
    ack: TcpView,
    t1: u64,
    t2: u64,
    answer: Answer,
    farewell: Farewell,
)
    requires
        c.wf(),
        c.state == State::FinWait1,
        c.send_queue.len() == 0,
        !c.fin_pending,
        fin.has(FIN),
        !fin.has(RST),
        fin.payload.len() == 0,
        fin.seq == c.rcv_nxt,
        c.after_ack(fin, t1).unacked.len() > 0,
        ack.has(ACK),
        !ack.has(FIN),
        !ack.has(RST),
        ack.payload.len() == 0,
        ack.ack == c.snd_nxt,
    ensures
        ({
            let c1 = c.after_segment(fin, t1, answer, farewell);
            let c2 = c1.after_segment(ack, t2, answer, farewell);
            &&& c1.state == State::Closing
            &&& c.segment_out(fin, t1, answer, farewell) == seq![
                OutView {
                    seq: c.snd_nxt,
                    ack: seq_add(fin.seq, 1),
                    flags: 0 | ACK,
                    payload: Seq::empty(),
                },
            ]
            &&& c2.state == State::TimeWait
            &&& c2.time_wait_started == t2
            &&& c1.segment_out(ack, t2, answer, farewell).len() == 0
        }),
{
    let acked = c.after_ack(fin, t1);
    lemma_after_ack_wf(c, fin, t1);
    lemma_bare_fin(c, fin, t1, answer, farewell);
    let c1 = c.after_segment(fin, t1, answer, farewell);
    assert(c1.wf());
    law_full_acknowledgement(c1);
    lemma_bare_ack(c1, ack, t2, answer, farewell);
}

/// A FIN without data, while our own is in flight: it is acknowledged.
proof fn lemma_bare_fin(
    c: ConnView,
    fin: TcpView,
    now: u64,
    answer: Answer,
    farewell: Farewell,
)
    requires
        c.state == State::FinWait1,
        c.send_queue.len() == 0,
        !c.fin_pending,
        fin.has(FIN),
        !fin.has(RST),
        fin.payload.len() == 0,
        fin.seq == c.rcv_nxt,
        c.after_ack(fin, now).unacked.len() > 0,
    ensures
        c.after_segment(fin, now, answer, farewell) == (ConnView {
            state: State::Closing,
            rcv_nxt: seq_add(fin.seq, 1),
            ..c.after_ack(fin, now)
        }),
        c.segment_out(fin, now, answer, farewell) == seq![
            OutView {
                seq: c.snd_nxt,
                ack: seq_add(fin.seq, 1),
                flags: 0 | ACK,
                payload: Seq::empty(),
            },
        ],
{
    let acked = c.after_ack(fin, now);
    assert(acked.state == State::FinWait1);
    assert(acked.after_data(fin, answer) == acked);
    assert(seq_add(fin.seq, 0) == fin.seq);
    lemma_nothing_to_send(acked.after_fin(fin, farewell, now), now);
}

/// An acknowledgement and nothing else: a connection with nothing to send
/// takes it in without a word.
proof fn lemma_bare_ack(
    c: ConnView,
    ack: TcpView,
    now: u64,
    answer: Answer,
    farewell: Farewell,
)
    requires
        c.state != State::Listen,
        c.state != State::Closed,
        c.send_queue.len() == 0,
        !c.fin_pending,
        ack.has(ACK),
        !ack.has(FIN),
        !ack.has(RST),
        ack.payload.len() == 0,
    ensures
        c.after_segment(ack, now, answer, farewell) == c.after_ack(ack, now),
        c.segment_out(ack, now, answer, farewell).len() == 0,
{
    let d = c.after_ack(ack, now);
    assert(d.after_data(ack, answer) == d);
    lemma_no_fin(d, ack, farewell, now);
    lemma_nothing_to_send(d, now);
}

// ---------------------------------------------------------------- answers

/// The payloads of outgoing segments, one after the other.
pub open spec fn payloads(out: Seq<OutView>) -> Seq<u8>
    decreases out.len(),
{
    if out.len() == 0 {
        Seq::empty()
    } else {
        payloads(out.drop_last()) + out.last().payload
    }
}

/// What a connection sends holds the data of the segments it keeps.
proof fn lemma_payloads(c: ConnView)
    ensures
        payloads(c.flush_out()) == c.send_queue.take(c.sendable() as int),
{
    lemma_all_pieces(c);
    let segments = c.flush_segments();
    lemma_transmitted(c, segments, c.flush_out());
    lemma_stream_push(c.pieces(), c.after_pieces(c.piece_count() as int, 0).fin_segment());
    assert(stream(c.pieces()) + Seq::<u8>::empty() =~= stream(c.pieces()));
}

proof fn lemma_transmitted(c: ConnView, q: Seq<SentView>, out: Seq<OutView>)
    requires
        out.len() == q.len(),
        forall|i: int| 0 <= i < q.len() ==> #[trigger] out[i] == c.transmission(q[i]),
    ensures
        payloads(out) == stream(q),
    decreases q.len(),
{
    if q.len() > 0 {
        lemma_transmitted(c, q.drop_last(), out.drop_last());
    }
}

/// What the service answers goes out: an established connection with an
/// empty queue sends, on data that are next in order, the service's answer
/// to them and nothing else, as far as the window has room.
pub proof fn law_answers_go_out(
    c: ConnView,
    seg: TcpView,
    now: u64,
    answer: Answer,
    farewell: Farewell,
)
    requires
        c.wf(),
        c.state == State::Established,
        c.send_queue.len() == 0,
        seg.payload.len() > 0,
        seg.seq == c.rcv_nxt,
        !seg.has(FIN),
        !seg.has(RST),
        data_len(c.after_ack(seg, now).unacked) + answer.reply.len() <= c.after_ack(
            seg,
            now,
        ).peer_window,
    ensures
        payloads(c.segment_out(seg, now, answer, farewell)) == answer.reply,
{
    let acked = c.after_ack(seg, now);
    lemma_after_ack_wf(c, seg, now);
    let fed = acked.after_data(seg, answer);
    lemma_no_fin(fed, seg, farewell, now);
    lemma_payloads(fed);
    assert(fed.send_queue =~= answer.reply);
    assert(fed.send_queue.take(fed.sendable() as int) =~= answer.reply);
    let ack_only = seq![fed.segment(fed.snd_nxt, 0, Seq::empty())];
    assert(ack_only.drop_last() =~= Seq::empty());
    reveal_with_fuel(payloads, 2);
    assert(payloads(ack_only) =~= Seq::empty());
}

/// A connection to the echo service sends back what it gets.
pub proof fn law_echo_over_tcp(
    c: ConnView,
    seg: TcpView,
    now: u64,
    answer: Answer,
    farewell: Farewell,
)
    requires
        c.wf(),
        c.service.behaviour == echo_behaviour(),
        c.may_react(seg, now, answer, farewell),
        c.state == State::Established,
        c.send_queue.len() == 0,
        seg.payload.len() > 0,
        seg.seq == c.rcv_nxt,
        !seg.has(FIN),
        !seg.has(RST),
        data_len(c.after_ack(seg, now).unacked) + seg.payload.len() <= c.after_ack(
            seg,
            now,
        ).peer_window,
    ensures
        payloads(c.segment_out(seg, now, answer, farewell)) == seg.payload,
{
    law_data_in_order_are_delivered(c, seg, now, answer, farewell);
    law_answers_go_out(c, seg, now, answer, farewell);
}

} // verus!
