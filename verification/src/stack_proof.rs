//! Proofs about the connection table of the stack.
use vstd::arithmetic::div_mod::lemma_fundamental_div_mod_converse;
use vstd::prelude::*;

use crate::connection_model::ConnView;
use crate::packet::{Ipv4Addr, TcpView, SYN};
use crate::service::{Answer, Farewell};
use crate::stack::Listener;
use crate::tcp::State;
use crate::stack_model::{
    connection_key, listener_behaviour, reaction, served, served_out, StackView,
};

verus! {

/// Different peers and ports have different keys.
pub proof fn lemma_connection_key(a: Ipv4Addr, ap: u16, al: u16, b: Ipv4Addr, bp: u16, bl: u16)
    requires
        connection_key(a, ap, al) == connection_key(b, bp, bl),
    ensures
        a == b,
        ap == bp,
        al == bl,
{
    let ((a0, a1), (a2, a3)) = ((a.0[0] as int, a.0[1] as int), (a.0[2] as int, a.0[3] as int));
    let ((b0, b1), (b2, b3)) = ((b.0[0] as int, b.0[1] as int), (b.0[2] as int, b.0[3] as int));
    let a_ports = ap * 0x1_0000 + al;
    let b_ports = bp * 0x1_0000 + bl;
    let a_addr = ((a0 * 0x100 + a1) * 0x100 + a2) * 0x100 + a3;
    let b_addr = ((b0 * 0x100 + b1) * 0x100 + b2) * 0x100 + b3;
    assert(connection_key(a, ap, al) == a_addr * 0x1_0000_0000 + a_ports);
    assert(connection_key(b, bp, bl) == b_addr * 0x1_0000_0000 + b_ports);
    lemma_parts(a_addr, a_ports, b_addr, b_ports, 0x1_0000_0000);
    lemma_parts(ap as int, al as int, bp as int, bl as int, 0x1_0000);
    lemma_parts((a0 * 0x100 + a1) * 0x100 + a2, a3, (b0 * 0x100 + b1) * 0x100 + b2, b3, 0x100);
    lemma_parts(a0 * 0x100 + a1, a2, b0 * 0x100 + b1, b2, 0x100);
    lemma_parts(a0, a1, b0, b1, 0x100);
    assert(a.0 =~= b.0);
}

/// A number has one quotient and one remainder.
proof fn lemma_parts(q: int, r: int, q2: int, r2: int, d: int)
    requires
        0 <= r < d,
        0 <= r2 < d,
        q * d + r == q2 * d + r2,
    ensures
        q == q2,
        r == r2,
{
    lemma_fundamental_div_mod_converse(q * d + r, d, q, r);
    lemma_fundamental_div_mod_converse(q2 * d + r2, d, q2, r2);
}

/// A service of a listening port reacts in one way only.
pub proof fn lemma_reaction(
    l: Listener,
    c: ConnView,
    seg: TcpView,
    now: u64,
    answer: Answer,
    farewell: Farewell,
)
    requires
        c.service.behaviour == listener_behaviour(l),
        c.may_react(seg, now, answer, farewell),
    ensures
        c.after_segment(seg, now, answer, farewell) == served(l, c, seg, now),
        c.segment_out(seg, now, answer, farewell) == served_out(l, c, seg, now),
{
    let acked = c.after_ack(seg, now);
    let (answer2, farewell2) = reaction(l, c, seg, now);
    if c.goes_on(seg, now) {
        if acked.delivers(seg) {
            assert(acked.service.may_answer(seg.payload, answer));
            assert(answer == answer2);
        }
        let fed = acked.after_data(seg, answer);
        assert(fed == acked.after_data(seg, answer2));
        if fed.tells_service(seg) {
            assert(fed.service.may_leave(farewell));
            assert(farewell.bytes =~= farewell2.bytes);
            assert(farewell == farewell2);
        }
        assert(fed.after_fin(seg, farewell, now) == fed.after_fin(seg, farewell2, now));
    }
}

/// The table stays in order when a connection opens.
pub proof fn lemma_opened_wf(s: StackView, src: Ipv4Addr, seg: TcpView)
    requires
        s.wf(),
        s.listeners.contains_key(seg.dst_port),
    ensures
        s.opened(src, seg).in_order(),
        s.opened(src, seg).waits_only_at(connection_key(src, seg.src_port, seg.dst_port)),
{
    let t = s.opened(src, seg);
    assert forall|k: u64| #[trigger] t.connections.contains_key(k) implies t.connection_ok(k) by {
        if k != connection_key(src, seg.src_port, seg.dst_port) {
            assert(s.connections.contains_key(k));
            assert(s.connection_ok(k));
        }
    }
}

/// The table stays in order when one of its connections moves on, and then
/// none of them waits for a SYN.
pub proof fn lemma_updated_wf(s: StackView, key: u64, c: ConnView)
    requires
        s.in_order(),
        s.waits_only_at(key),
        s.connections.contains_key(key),
        c.wf(),
        c.state != State::Listen,
        c.remote == s.connections[key].remote,
        c.local == s.connections[key].local,
        c.service.behaviour == s.connections[key].service.behaviour,
    ensures
        s.updated(key, c).wf(),
{
    let t = s.updated(key, c);
    assert forall|k: u64| #[trigger] t.connections.contains_key(k) implies t.connection_ok(k)
        && t.connections[k].state != State::Listen by {
        assert(s.connections.contains_key(k));
        assert(s.connection_ok(k));
    }
}

/// No segment makes a connection wait for a SYN, and a SYN ends the wait.
pub proof fn lemma_served_state(l: Listener, c: ConnView, seg: TcpView, now: u64)
    requires
        c.state != State::Listen || seg.has(SYN),
    ensures
        served(l, c, seg, now).state != State::Listen,
{
    let (answer, farewell) = reaction(l, c, seg, now);
    if c.goes_on(seg, now) {
        let acked = c.after_ack(seg, now);
        assert(acked.state != State::Listen);
        let fed = acked.after_data(seg, answer);
        assert(fed.state == acked.state);
        let over = fed.after_fin(seg, farewell, now);
        assert(over.state != State::Listen);
    }
}

/// The stack when time has passed for the connections of some keys.
pub open spec fn ticked(s: StackView, keys: Seq<u64>, now: u64) -> StackView {
    StackView {
        connections: Map::new(
            |key: u64|
                s.connections.contains_key(key) && (keys.contains(key)
                    ==> s.connections[key].after_tick(now).state != State::Closed),
            |key: u64|
                if keys.contains(key) {
                    s.connections[key].after_tick(now)
                } else {
                    s.connections[key]
                },
        ),
        ..s
    }
}

pub proof fn lemma_ticked_none(s: StackView, now: u64)
    ensures
        ticked(s, Seq::empty(), now) == s,
{
    assert(ticked(s, Seq::empty(), now).connections =~= s.connections);
}

pub proof fn lemma_ticked_one(s: StackView, keys: Seq<u64>, i: int, now: u64)
    requires
        s.lists_connections(keys),
        0 <= i < keys.len(),
    ensures
        ({
            let before = ticked(s, keys.take(i), now);
            let key = keys[i];
            &&& before.connections.contains_key(key)
            &&& before.connections[key] == s.connections[key]
            &&& before.tick_packets(key, now) == s.tick_packets(key, now)
            &&& ticked(s, keys.take(i + 1), now) == before.updated(
                key,
                s.connections[key].after_tick(now),
            )
        }),
{
    let key = keys[i];
    let before = ticked(s, keys.take(i), now);
    let after = ticked(s, keys.take(i + 1), now);
    assert(keys.to_set().contains(key));
    assert(!keys.take(i).contains(key));
    assert(keys.take(i + 1) =~= keys.take(i).push(key));
    assert forall|k: u64|
        keys.take(i + 1).contains(k) == (keys.take(i).contains(k) || k == key) by {
        if keys.take(i).contains(k) {
            let j = choose|j: int| 0 <= j < i && keys.take(i)[j] == k;
            assert(keys.take(i + 1)[j] == k);
        }
        if k == key {
            assert(keys.take(i + 1)[i] == k);
        }
    }
    assert(before.tick_packets(key, now) =~= s.tick_packets(key, now));
    assert(after.connections =~= before.updated(
        key,
        s.connections[key].after_tick(now),
    ).connections);
}

pub proof fn lemma_ticked_all(s: StackView, keys: Seq<u64>, now: u64)
    requires
        s.lists_connections(keys),
    ensures
        ticked(s, keys, now) == s.after_tick(now),
{
    assert forall|k: u64| s.connections.contains_key(k) implies keys.contains(k) by {
        assert(keys.to_set().contains(k));
    }
    assert(ticked(s, keys, now).connections =~= s.after_tick(now).connections);
}

} // verus!
