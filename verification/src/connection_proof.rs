//! Proofs that every event keeps a connection well formed.
use vstd::prelude::*;

use crate::connection_model::{
    chained, data_len, drop_acked, marked, marks, min, most_marks, sent_ok, span, ConnView,
    SentView,
};
use crate::packet::{TcpView, FIN, PSH, SYN};
use crate::seqno::{
    lemma_seq_add_add, lemma_seq_add_dist, lemma_seq_before_add, lemma_seq_between,
    lemma_seq_dist_add, seq_add, seq_dist,
};
use crate::service::{Answer, Farewell};
use crate::tcp::{State, MSS};

verus! {

/// Which of the flags that a segment in flight can have count as a mark.
pub proof fn lemma_marked(s: SentView)
    ensures
        s.flags == 0 ==> !marked(s),
        s.flags == PSH ==> !marked(s),
        s.flags == SYN ==> marked(s),
        s.flags == FIN ==> marked(s),
{
    assert(0u8 & (2u8 | 1u8) == 0) by (bit_vector);
    assert(8u8 & (2u8 | 1u8) == 0) by (bit_vector);
    assert(2u8 & (2u8 | 1u8) != 0) by (bit_vector);
    assert(1u8 & (2u8 | 1u8) != 0) by (bit_vector);
}

pub proof fn lemma_push(q: Seq<SentView>, s: SentView)
    ensures
        data_len(q.push(s)) == data_len(q) + s.data.len(),
        marks(q.push(s)) == marks(q) + (if marked(s) {
            1nat
        } else {
            0
        }),
    decreases q.len(),
{
    if q.len() == 0 {
        assert(q.push(s).skip(1) =~= Seq::empty());
        reveal_with_fuel(data_len, 2);
        reveal_with_fuel(marks, 2);
    } else {
        lemma_push(q.skip(1), s);
        assert(q.push(s).skip(1) =~= q.skip(1).push(s));
    }
}

pub proof fn lemma_chained_push(q: Seq<SentView>, start: u32, end: u32, s: SentView)
    requires
        chained(q, start, end),
        s.seq == end,
        sent_ok(s),
    ensures
        chained(q.push(s), start, seq_add(end, span(s))),
    decreases q.len(),
{
    if q.len() == 0 {
        assert(q.push(s).skip(1) =~= Seq::empty());
        reveal_with_fuel(chained, 2);
    } else {
        lemma_chained_push(q.skip(1), seq_add(start, span(q[0])), end, s);
        assert(q.push(s).skip(1) =~= q.skip(1).push(s));
    }
}

/// Chained segments take as many numbers as they hold bytes and marks.
pub proof fn lemma_chained_end(q: Seq<SentView>, start: u32, end: u32)
    requires
        chained(q, start, end),
    ensures
        end == seq_add(start, data_len(q) + marks(q)),
    decreases q.len(),
{
    if q.len() > 0 {
        let next = seq_add(start, span(q[0]));
        lemma_chained_end(q.skip(1), next, end);
        lemma_seq_add_add(start, span(q[0]), data_len(q.skip(1)) + marks(q.skip(1)));
    }
}

/// An acknowledgement `a` numbers after the start of chained segments leaves
/// the segments from the one that holds that number.
pub proof fn lemma_drop_acked(q: Seq<SentView>, start: u32, end: u32, a: nat) -> (k: nat)
    requires
        chained(q, start, end),
        a <= data_len(q) + marks(q) <= 0x7FFF_FFFF,
    ensures
        ({
            let rest = drop_acked(q, seq_add(start, a));
            &&& k <= a
            &&& chained(rest, seq_add(start, k), end)
            &&& data_len(rest) <= data_len(q)
            &&& marks(rest) <= marks(q)
            &&& rest.len() == 0 ==> a == data_len(q) + marks(q)
            &&& rest.len() > 0 ==> a - k < span(rest[0])
        }),
    decreases q.len(),
{
    if q.len() == 0 {
        0
    } else {
        let s = span(q[0]);
        let ack = seq_add(start, a);
        lemma_seq_before_add(start, a, s);
        if a >= s {
            lemma_seq_add_add(start, s, (a - s) as nat);
            let k = lemma_drop_acked(q.skip(1), seq_add(start, s), end, (a - s) as nat);
            lemma_seq_add_add(start, s, k);
            s + k
        } else {
            0
        }
    }
}

/// A new acknowledgement lies within what is in flight.
pub proof fn lemma_new_ack(c: ConnView, ack: u32)
    requires
        c.wf(),
        c.is_new_ack(ack),
    ensures
        c.unacked.len() > 0,
        ({
            let start = c.unacked[0].seq;
            let a = seq_dist(start, ack);
            &&& seq_dist(start, c.snd_una) < a <= data_len(c.unacked) + marks(c.unacked)
            &&& ack == seq_add(start, a)
        }),
{
    let start = if c.unacked.len() == 0 {
        c.snd_nxt
    } else {
        c.unacked[0].seq
    };
    let total = data_len(c.unacked) + marks(c.unacked);
    lemma_chained_end(c.unacked, start, c.snd_nxt);
    lemma_seq_add_dist(start, c.snd_una);
    lemma_seq_add_dist(start, ack);
    lemma_seq_between(start, seq_dist(start, c.snd_una), total, seq_dist(start, ack));
}

pub proof fn lemma_acknowledged_wf(c: ConnView, ack: u32)
    requires
        c.wf(),
    ensures
        c.acknowledged(ack).wf(),
{
    if c.is_new_ack(ack) {
        lemma_new_ack(c, ack);
        let start = c.unacked[0].seq;
        let a = seq_dist(start, ack);
        let k = lemma_drop_acked(c.unacked, start, c.snd_nxt, a);
        let rest = drop_acked(c.unacked, ack);
        lemma_chained_end(c.unacked, start, c.snd_nxt);
        if rest.len() > 0 {
            assert(rest[0].seq == seq_add(start, k));
            lemma_seq_add_add(start, k, (a - k) as nat);
            lemma_seq_dist_add(rest[0].seq, (a - k) as nat);
        }
    }
}

pub proof fn lemma_after_ack_wf(c: ConnView, seg: TcpView, now: u64)
    requires
        c.wf(),
        c.state != State::Listen,
    ensures
        c.after_ack(seg, now).wf(),
        c.after_ack(seg, now).state != State::Listen,
{
    lemma_acknowledged_wf(c, seg.ack);
}

pub proof fn lemma_opened_wf(c: ConnView, seg: TcpView, now: u64)
    requires
        c.wf(),
        c.state == State::Listen,
    ensures
        c.opened(seg, now).wf(),
{
    let s = SentView { seq: c.snd_nxt, data: Seq::empty(), flags: SYN };
    lemma_marked(s);
    lemma_push(c.unacked, s);
    lemma_chained_push(c.unacked, c.snd_nxt, c.snd_nxt, s);
    assert(c.opened(seg, now).unacked[0] == s);
}

/// Facts about the pieces that a queue is cut into.
pub proof fn lemma_piece(c: ConnView, i: int)
    requires
        0 <= i < c.piece_count(),
    ensures
        0 <= i * MSS < c.sendable(),
        c.sendable() <= c.send_queue.len(),
        sent_ok(c.piece(i)),
        !marked(c.piece(i)),
        c.piece(i).data.len() == min((i + 1) * MSS, c.sendable() as int) - i * MSS,
        c.piece(i).seq == seq_add(c.snd_nxt, (i * MSS) as nat),
        i + 1 < c.piece_count() ==> (i + 1) * MSS < c.sendable(),
        i + 1 == c.piece_count() ==> (i + 1) * MSS >= c.sendable(),
{
    lemma_marked(c.piece(i));
    let n = c.sendable();
    assert(c.piece_count() == (n + 1199) / 1200);
}

/// Sending one more piece.
pub proof fn lemma_one_piece(c: ConnView, k: int, now: u64)
    requires
        0 <= k < c.piece_count(),
    ensures
        ({
            let before = c.after_pieces(k, now);
            let after = c.after_pieces(k + 1, now);
            let s = c.piece(k);
            &&& s.seq == before.snd_nxt
            &&& s.data == before.send_queue.take(s.data.len() as int)
            &&& after.send_queue == before.send_queue.skip(s.data.len() as int)
            &&& after.snd_nxt == seq_add(before.snd_nxt, span(s))
            &&& after.unacked == before.unacked.push(s)
            &&& after == (ConnView {
                unacked: after.unacked,
                snd_nxt: after.snd_nxt,
                send_queue: after.send_queue,
                last_send_ms: now,
                ..before
            })
        }),
{
    let before = c.after_pieces(k, now);
    let after = c.after_pieces(k + 1, now);
    let s = c.piece(k);
    lemma_piece(c, k);
    assert(s.data =~= before.send_queue.take(s.data.len() as int));
    assert(after.send_queue =~= before.send_queue.skip(s.data.len() as int));
    lemma_seq_add_add(c.snd_nxt, (k * MSS) as nat, span(s));
    assert(c.pieces().take(k + 1) =~= c.pieces().take(k).push(s));
    assert(after.unacked =~= before.unacked.push(s));
}

pub proof fn lemma_no_pieces(c: ConnView, now: u64)
    ensures
        c.after_pieces(0, now) == c,
{
    assert(c.pieces().take(0) =~= Seq::empty());
    assert(c.unacked + c.pieces().take(0) =~= c.unacked);
    assert(c.send_queue.skip(0) =~= c.send_queue);
    assert(seq_add(c.snd_nxt, 0) == c.snd_nxt);
}

/// A connection stays well formed when a segment joins those in flight.
pub proof fn lemma_sent_wf(before: ConnView, after: ConnView, s: SentView)
    requires
        before.wf(),
        before.state != State::Listen,
        s.seq == before.snd_nxt,
        sent_ok(s),
        after.unacked == before.unacked.push(s),
        after.snd_nxt == seq_add(before.snd_nxt, span(s)),
        after.snd_una == before.snd_una,
        after.retries == before.retries,
        after.state != State::Listen,
        data_len(before.unacked) + s.data.len() <= 0xFFFF,
        marks(before.unacked) + (if marked(s) {
            1nat
        } else {
            0
        }) <= most_marks(after.state),
    ensures
        after.wf(),
{
    lemma_marked(s);
    lemma_push(before.unacked, s);
    let start = if before.unacked.len() == 0 {
        before.snd_nxt
    } else {
        before.unacked[0].seq
    };
    lemma_chained_push(before.unacked, start, before.snd_nxt, s);
    if before.unacked.len() == 0 {
        assert(after.unacked[0] == s);
    } else {
        assert(after.unacked[0] == before.unacked[0]);
    }
}

pub proof fn lemma_after_pieces_wf(c: ConnView, k: int, now: u64)
    requires
        c.wf(),
        c.state != State::Listen,
        0 <= k <= c.piece_count(),
    ensures
        c.after_pieces(k, now).wf(),
        data_len(c.after_pieces(k, now).unacked) == data_len(c.unacked) + min(
            k * MSS,
            c.sendable() as int,
        ),
        marks(c.after_pieces(k, now).unacked) == marks(c.unacked),
    decreases k,
{
    lemma_no_pieces(c, now);
    if k > 0 {
        lemma_after_pieces_wf(c, k - 1, now);
        lemma_one_piece(c, k - 1, now);
        lemma_piece(c, k - 1);
        let before = c.after_pieces(k - 1, now);
        let s = c.piece(k - 1);
        lemma_push(before.unacked, s);
        lemma_sent_wf(before, c.after_pieces(k, now), s);
    }
}

pub proof fn lemma_own_fin_wf(c: ConnView, now: u64)
    requires
        c.wf(),
        c.sends_fin(),
    ensures
        c.after_own_fin(now).wf(),
{
    lemma_marked(c.fin_segment());
    lemma_sent_wf(c, c.after_own_fin(now), c.fin_segment());
}

pub proof fn lemma_flushed_wf(c: ConnView, now: u64)
    requires
        c.wf(),
    ensures
        c.flushed(now).wf(),
{
    lemma_no_pieces(c, now);
    if c.state != State::Listen {
        let k = c.piece_count() as int;
        lemma_after_pieces_wf(c, k, now);
        let d = c.after_pieces(k, now);
        if d.sends_fin() {
            lemma_own_fin_wf(d, now);
        }
    }
}

/// Adding up the data of segments from the front.
pub proof fn lemma_data_len_take(q: Seq<SentView>, i: int)
    requires
        0 <= i < q.len(),
    ensures
        data_len(q.take(i + 1)) == data_len(q.take(i)) + q[i].data.len(),
        data_len(q.take(i + 1)) <= data_len(q),
    decreases q.len() - i,
{
    assert(q.take(i + 1) =~= q.take(i).push(q[i]));
    lemma_push(q.take(i), q[i]);
    if i + 1 == q.len() {
        assert(q.take(i + 1) =~= q);
    } else {
        lemma_data_len_take(q, i + 1);
    }
}

/// Every segment in flight is a good one.
pub proof fn lemma_in_flight_ok(c: ConnView)
    requires
        c.wf(),
    ensures
        forall|i: int| 0 <= i < c.unacked.len() ==> sent_ok(#[trigger] c.unacked[i]),
{
    if c.unacked.len() > 0 {
        lemma_chained_ok(c.unacked, c.unacked[0].seq, c.snd_nxt);
    }
}

proof fn lemma_chained_ok(q: Seq<SentView>, start: u32, end: u32)
    requires
        chained(q, start, end),
    ensures
        forall|i: int| 0 <= i < q.len() ==> sent_ok(#[trigger] q[i]),
    decreases q.len(),
{
    if q.len() > 0 {
        lemma_chained_ok(q.skip(1), seq_add(start, span(q[0])), end);
        assert forall|i: int| 0 <= i < q.len() implies sent_ok(#[trigger] q[i]) by {
            if i > 0 {
                assert(q[i] == q.skip(1)[i - 1]);
            }
        }
    }
}

/// A connection sends no more than MSS bytes in a segment.
pub proof fn lemma_flush_out_small(c: ConnView)
    ensures
        forall|i: int|
            0 <= i < c.flush_out().len() ==> (#[trigger] c.flush_out()[i]).payload.len() <= MSS,
{
    assert forall|i: int| 0 <= i < c.flush_out().len() implies (
    #[trigger] c.flush_out()[i]).payload.len() <= MSS by {
        if i < c.piece_count() {
            lemma_piece(c, i);
            assert(c.flush_segments()[i] == c.piece(i));
        }
    }
}

pub proof fn lemma_segment_out_small(
    c: ConnView,
    seg: TcpView,
    now: u64,
    answer: Answer,
    farewell: Farewell,
)
    ensures
        forall|i: int|
            0 <= i < c.segment_out(seg, now, answer, farewell).len() ==> (
            #[trigger] c.segment_out(seg, now, answer, farewell)[i]).payload.len() <= MSS,
{
    lemma_flush_out_small(c.taken_in(seg, now, answer, farewell));
}

pub proof fn lemma_tick_out_small(c: ConnView, now: u64)
    requires
        c.wf(),
    ensures
        forall|i: int|
            0 <= i < c.tick_out(now).len() ==> (#[trigger] c.tick_out(now)[i]).payload.len() <= MSS,
{
    lemma_flush_out_small(c);
    lemma_in_flight_ok(c);
    assert forall|i: int| 0 <= i < c.tick_out(now).len() implies (
    #[trigger] c.tick_out(now)[i]).payload.len() <= MSS by {
        if c.overdue(now) {
            if i > 0 {
                assert(c.tick_out(now)[i] == c.flush_out()[i - 1]);
            } else {
                assert(sent_ok(c.unacked[0]));
            }
        }
    }
}

} // verus!
