//! What holds of the stack as a whole: what it answers to every kind of
//! packet, and what no packet can change.
use vstd::prelude::*;

use crate::connection_laws::{
    asks, law_answers_go_out, law_time_passes_once, law_unasked_services_are_not_heard,
    law_we_close_first, lemma_asked, payloads,
};
use crate::connection_model::{data_len, ConnView, OutView, SentView};
use crate::format_laws::{law_icmp_built, law_ipv4_built};
use crate::http::{has_blank_line, http_behaviour, page_bytes};
use crate::packet::{
    icmp_bytes, icmp_fault, icmp_fields, ipv4_bytes, ipv4_fault, ipv4_fields, tcp_bytes, tcp_fault,
    tcp_fields, tcp_options, udp_bytes, udp_fault, udp_fields, IcmpView, Ipv4Addr, Ipv4View,
    TcpView, UdpView, ACK, FIN, PROTO_ICMP, PROTO_TCP, PROTO_UDP, RST, SYN,
};
use crate::packet_laws::{
    law_icmp_round_trip, law_ipv4_round_trip, law_tcp_round_trip, law_udp_round_trip,
};
use crate::seqno::seq_add;
use crate::service::{echo_behaviour, Answer, Farewell, ServiceView};
use crate::stack::{line_views, packet_views, Listener};
use crate::stack_model::{connection_key, reaction, served, served_out, StackView, ANNOUNCED_WINDOW};
use crate::stack_proof::lemma_connection_key;
use crate::tcp::State;
use crate::text::{decimal, dotted, text_in};
use crate::transition_laws::law_syn_field_by_field;

verus! {

/// The packet that carries a segment.
pub open spec fn tcp_packet(src: Ipv4Addr, dst: Ipv4Addr, t: TcpView) -> Seq<u8> {
    ipv4_bytes(src, dst, PROTO_TCP, tcp_bytes(src, dst, t))
}

/// A port in decimal notation.
pub open spec fn port_text(port: u16) -> Seq<char> {
    decimal(port as nat)
}

/// Whether a packet is accepted, is for this stack and is of a protocol.
pub open spec fn arrives(s: StackView, bytes: Seq<u8>, protocol: u8) -> bool {
    &&& ipv4_fault(bytes) is None
    &&& ipv4_fields(bytes).dst == s.addr
    &&& ipv4_fields(bytes).protocol == protocol
}

/// Whether a packet brings the stack an accepted segment from an address.
pub open spec fn brings(s: StackView, bytes: Seq<u8>, src: Ipv4Addr, t: TcpView) -> bool {
    let p = ipv4_fields(bytes);
    &&& arrives(s, bytes, PROTO_TCP)
    &&& p.src == src
    &&& tcp_fault(src, s.addr, p.payload) is None
    &&& tcp_fields(p.payload) == t
}

/// A segment that was built for the stack arrives as it was built, if it fits
/// in a packet.
pub proof fn law_built_segments_arrive(s: StackView, src: Ipv4Addr, t: TcpView)
    requires
        40 + tcp_options(t.flags).len() + t.payload.len() <= 0xFFFF,
    ensures
        brings(s, tcp_packet(src, s.addr, t), src, t),
{
    law_ipv4_round_trip(src, s.addr, PROTO_TCP, tcp_bytes(src, s.addr, t));
    law_tcp_round_trip(src, s.addr, t);
}

// ---------------------------------------------------------------- what is not for us

/// A packet for another address is ignored.
pub proof fn law_other_addresses_are_ignored(s: StackView, bytes: Seq<u8>, now: u64)
    requires
        ipv4_fault(bytes) is None,
        ipv4_fields(bytes).dst != s.addr,
    ensures
        s.after_packet(bytes, now) == s,
        s.packet_out(bytes, now).len() == 0,
{
}

/// Why a packet for this stack is rejected, at whatever layer.
pub open spec fn fault(bytes: Seq<u8>) -> Option<Seq<char>> {
    let p = ipv4_fields(bytes);
    if ipv4_fault(bytes) is Some {
        ipv4_fault(bytes)
    } else if p.protocol == PROTO_ICMP {
        icmp_fault(p.payload)
    } else if p.protocol == PROTO_UDP {
        udp_fault(p.src, p.dst, p.payload)
    } else if p.protocol == PROTO_TCP {
        tcp_fault(p.src, p.dst, p.payload)
    } else {
        None
    }
}

/// A packet that is rejected at any layer is not answered and leaves nothing
/// but a line in the log.
pub proof fn law_rejected_packets_are_dropped(s: StackView, bytes: Seq<u8>, now: u64)
    requires
        ipv4_fault(bytes) is Some || ipv4_fields(bytes).dst == s.addr,
    ensures
        fault(bytes) matches Some(e) ==> {
            &&& s.after_packet(bytes, now) == s.logged("dropped: "@ + e)
            &&& s.packet_out(bytes, now).len() == 0
        },
{
}

// ---------------------------------------------------------------- ICMP and UDP

/// A ping, which is a message of kind 8 and code 0 with whatever data, is
/// answered by an echo of what it holds, back to where it came from; whoever
/// sent it reads there what they had sent.
#[verifier::spinoff_prover]
#[verifier::rlimit(40)]
pub proof fn law_pings_are_answered(s: StackView, bytes: Seq<u8>, now: u64)
    requires
        arrives(s, bytes, PROTO_ICMP),
        icmp_fault(ipv4_fields(bytes).payload) is None,
        ipv4_fields(bytes).payload[0] == 8,
        ipv4_fields(bytes).payload[1] == 0,
    ensures
        ({
            let p = ipv4_fields(bytes);
            let rest = p.payload.subrange(4, 8);
            let data = p.payload.skip(8);
            let message = icmp_bytes(0, 0, rest, data);
            let reply = ipv4_bytes(s.addr, p.src, PROTO_ICMP, message);
            &&& s.packet_out(bytes, now) == seq![reply]
            &&& s.after_packet(bytes, now) == s.logged("ping from "@ + dotted(p.src))
            &&& ipv4_fault(reply) is None
            &&& ipv4_fields(reply) == Ipv4View {
                src: s.addr,
                dst: p.src,
                protocol: PROTO_ICMP,
                ttl: 64,
                payload: message,
            }
            &&& icmp_fault(message) is None
            &&& icmp_fields(message) == IcmpView {
                kind: 0,
                code: 0,
                rest,
                payload: data,
            }
        }),
{
    let p = ipv4_fields(bytes);
    let ping = icmp_fields(p.payload);
    lemma_icmp_packet(s.addr, p.src, 0, 0, ping.rest, ping.payload);
}

/// Any other ICMP message is taken note of in no way.
pub proof fn law_other_icmp_messages_are_ignored(s: StackView, bytes: Seq<u8>, now: u64)
    requires
        arrives(s, bytes, PROTO_ICMP),
        icmp_fault(ipv4_fields(bytes).payload) is None,
        ipv4_fields(bytes).payload[0] != 8 || ipv4_fields(bytes).payload[1] != 0,
    ensures
        s.packet_out(bytes, now).len() == 0,
        s.after_packet(bytes, now) == s,
{
}

/// A packet of another protocol is not answered, and noted in the log.
pub proof fn law_other_protocols_are_noted(s: StackView, bytes: Seq<u8>, now: u64)
    requires
        ipv4_fault(bytes) is None,
        ipv4_fields(bytes).dst == s.addr,
        ipv4_fields(bytes).protocol != 1,
        ipv4_fields(bytes).protocol != 6,
        ipv4_fields(bytes).protocol != 17,
    ensures
        s.packet_out(bytes, now).len() == 0,
        s.after_packet(bytes, now) == (StackView {
            log: s.log.push(
                "unsupported protocol "@ + decimal(ipv4_fields(bytes).protocol as nat),
            ),
            ..s
        }),
{
}

/// A line in the log is all that logging changes.
pub proof fn law_logging(s: StackView, line: Seq<char>)
    ensures
        s.logged(line) == (StackView { log: s.log.push(line), ..s }),
{
}

/// A datagram to an echo port comes back, with its ports exchanged; whoever
/// sent it reads there what they had sent.
#[verifier::spinoff_prover]
#[verifier::rlimit(40)]
pub proof fn law_datagrams_are_echoed(s: StackView, bytes: Seq<u8>, now: u64)
    requires
        arrives(s, bytes, PROTO_UDP),
        udp_fault(ipv4_fields(bytes).src, s.addr, ipv4_fields(bytes).payload) is None,
        s.udp_echo_ports.contains(udp_fields(ipv4_fields(bytes).payload).dst_port),
    ensures
        ({
            let p = ipv4_fields(bytes);
            let udp = udp_fields(p.payload);
            let datagram = udp_bytes(s.addr, p.src, udp.dst_port, udp.src_port, udp.payload);
            let reply = ipv4_bytes(s.addr, p.src, PROTO_UDP, datagram);
            &&& s.packet_out(bytes, now) == seq![reply]
            &&& s.after_packet(bytes, now) == s
            &&& ipv4_fault(reply) is None
            &&& ipv4_fields(reply) == Ipv4View {
                src: s.addr,
                dst: p.src,
                protocol: PROTO_UDP,
                ttl: 64,
                payload: datagram,
            }
            &&& udp_fault(s.addr, p.src, datagram) is None
            &&& udp_fields(datagram) == UdpView {
                src_port: udp.dst_port,
                dst_port: udp.src_port,
                payload: udp.payload,
            }
        }),
{
    let p = ipv4_fields(bytes);
    let udp = udp_fields(p.payload);
    assert(8 + udp.payload.len() <= p.payload.len() <= 0xFFFF - 20);
    lemma_udp_packet(s.addr, p.src, udp.dst_port, udp.src_port, udp.payload);
}

/// A packet around a datagram that was built is accepted, and so is the
/// datagram.
proof fn lemma_udp_packet(
    src: Ipv4Addr,
    dst: Ipv4Addr,
    src_port: u16,
    dst_port: u16,
    payload: Seq<u8>,
)
    requires
        28 + payload.len() <= 0xFFFF,
    ensures
        ({
            let datagram = udp_bytes(src, dst, src_port, dst_port, payload);
            let packet = ipv4_bytes(src, dst, PROTO_UDP, datagram);
            &&& ipv4_fault(packet) is None
            &&& ipv4_fields(packet) == Ipv4View {
                src,
                dst,
                protocol: PROTO_UDP,
                ttl: 64,
                payload: datagram,
            }
            &&& udp_fault(src, dst, datagram) is None
            &&& udp_fields(datagram) == UdpView { src_port, dst_port, payload }
        }),
{
    let datagram = udp_bytes(src, dst, src_port, dst_port, payload);
    lemma_udp_len(src, dst, src_port, dst_port, payload);
    law_ipv4_round_trip(src, dst, PROTO_UDP, datagram);
    law_udp_round_trip(src, dst, src_port, dst_port, payload);
}

proof fn lemma_udp_len(
    src: Ipv4Addr,
    dst: Ipv4Addr,
    src_port: u16,
    dst_port: u16,
    payload: Seq<u8>,
)
    ensures
        udp_bytes(src, dst, src_port, dst_port, payload).len() == 8 + payload.len(),
{
}

/// A datagram to any other port is answered by the ICMP message that the port
/// is unreachable, with a header of the packet and the first eight bytes of
/// the datagram.
#[verifier::spinoff_prover]
#[verifier::rlimit(40)]
pub proof fn law_closed_udp_ports_are_unreachable(s: StackView, bytes: Seq<u8>, now: u64)
    requires
        arrives(s, bytes, PROTO_UDP),
        udp_fault(ipv4_fields(bytes).src, s.addr, ipv4_fields(bytes).payload) is None,
        !s.udp_echo_ports.contains(udp_fields(ipv4_fields(bytes).payload).dst_port),
    ensures
        ({
            let p = ipv4_fields(bytes);
            let start = ipv4_bytes(p.src, s.addr, PROTO_UDP, p.payload.take(8));
            let message = icmp_bytes(3, 3, seq![0, 0, 0, 0], start);
            let reply = ipv4_bytes(s.addr, p.src, PROTO_ICMP, message);
            &&& s.packet_out(bytes, now) == seq![reply]
            &&& s.after_packet(bytes, now) == s.logged(
                "udp to closed port "@ + port_text(udp_fields(p.payload).dst_port),
            )
            &&& ipv4_fault(reply) is None
            &&& ipv4_fields(reply) == Ipv4View {
                src: s.addr,
                dst: p.src,
                protocol: PROTO_ICMP,
                ttl: 64,
                payload: message,
            }
            &&& icmp_fault(message) is None
            &&& icmp_fields(message) == IcmpView {
                kind: 3,
                code: 3,
                rest: seq![0, 0, 0, 0],
                payload: start,
            }
        }),
{
    let p = ipv4_fields(bytes);
    let start = ipv4_bytes(p.src, s.addr, PROTO_UDP, p.payload.take(8));
    law_ipv4_built(p.src, s.addr, PROTO_UDP, p.payload.take(8));
    assert(start.len() == 28);
    lemma_icmp_packet(s.addr, p.src, 3, 3, seq![0, 0, 0, 0], start);
}

/// A packet around an ICMP message that was built is accepted, and so is the
/// message.
proof fn lemma_icmp_packet(
    src: Ipv4Addr,
    dst: Ipv4Addr,
    kind: u8,
    code: u8,
    rest: Seq<u8>,
    payload: Seq<u8>,
)
    requires
        rest.len() == 4,
        28 + payload.len() <= 0xFFFF,
    ensures
        ({
            let message = icmp_bytes(kind, code, rest, payload);
            let packet = ipv4_bytes(src, dst, PROTO_ICMP, message);
            &&& ipv4_fault(packet) is None
            &&& ipv4_fields(packet) == Ipv4View {
                src,
                dst,
                protocol: PROTO_ICMP,
                ttl: 64,
                payload: message,
            }
            &&& icmp_fault(message) is None
            &&& icmp_fields(message) == IcmpView { kind, code, rest, payload }
        }),
{
    let message = icmp_bytes(kind, code, rest, payload);
    law_icmp_built(kind, code, rest, payload);
    law_ipv4_round_trip(src, dst, PROTO_ICMP, message);
    law_icmp_round_trip(kind, code, rest, payload);
}

// ---------------------------------------------------------------- TCP

/// What the stack sends for a connection is accepted at the peer, and brings
/// there the segment that the connection sent.
pub proof fn law_answers_are_readable(
    s: StackView,
    remote: Ipv4Addr,
    remote_port: u16,
    local_port: u16,
    o: OutView,
)
    requires
        o.payload.len() <= 1200,
    ensures
        ({
            let p = ipv4_fields(s.wrapped(remote, remote_port, local_port, o));
            &&& ipv4_fault(s.wrapped(remote, remote_port, local_port, o)) is None
            &&& p.src == s.addr
            &&& p.dst == remote
            &&& p.protocol == PROTO_TCP
            &&& tcp_fault(s.addr, remote, p.payload) is None
            &&& tcp_fields(p.payload) == TcpView {
                src_port: local_port,
                dst_port: remote_port,
                seq: o.seq,
                ack: o.ack,
                flags: o.flags,
                window: 16384,
                payload: o.payload,
            }
        }),
{
    let t = TcpView {
        src_port: local_port,
        dst_port: remote_port,
        seq: o.seq,
        ack: o.ack,
        flags: o.flags,
        window: ANNOUNCED_WINDOW,
        payload: o.payload,
    };
    law_ipv4_round_trip(s.addr, remote, PROTO_TCP, tcp_bytes(s.addr, remote, t));
    law_tcp_round_trip(s.addr, remote, t);
}

/// A segment to nobody is answered by a reset, and changes nothing: neither
/// belongs it to a connection nor does it open one, and it is no reset
/// itself. The reset takes its number from the segment's acknowledgement, if
/// there is one, and else acknowledges the segment.
pub proof fn law_segments_to_nobody_get_a_reset(
    s: StackView,
    bytes: Seq<u8>,
    src: Ipv4Addr,
    t: TcpView,
    now: u64,
)
    requires
        brings(s, bytes, src, t),
        !s.connections.contains_key(connection_key(src, t.src_port, t.dst_port)),
        !s.listeners.contains_key(t.dst_port) || !t.has(SYN) || t.has(ACK),
        !t.has(RST),
    ensures
        s.after_packet(bytes, now) == s,
        t.has(ACK) ==> s.packet_out(bytes, now) == seq![
            tcp_packet(
                s.addr,
                src,
                TcpView {
                    src_port: t.dst_port,
                    dst_port: t.src_port,
                    seq: t.ack,
                    ack: 0,
                    flags: RST,
                    window: 0,
                    payload: Seq::empty(),
                },
            ),
        ],
        !t.has(ACK) ==> s.packet_out(bytes, now) == seq![
            tcp_packet(
                s.addr,
                src,
                TcpView {
                    src_port: t.dst_port,
                    dst_port: t.src_port,
                    seq: 0,
                    ack: seq_add(t.seq, t.payload.len() + 1),
                    flags: RST | ACK,
                    window: 0,
                    payload: Seq::empty(),
                },
            ),
        ],
{
}

/// A reset is never answered. It ends the connection that it is for; with a
/// first SYN for a port with a service it leaves no connection either, only
/// the trace of one; and otherwise it changes nothing.
pub proof fn law_resets_are_not_answered(
    s: StackView,
    bytes: Seq<u8>,
    src: Ipv4Addr,
    t: TcpView,
    now: u64,
)
    requires
        brings(s, bytes, src, t),
        t.has(RST),
    ensures
        s.packet_out(bytes, now).len() == 0,
        ({
            let key = connection_key(src, t.src_port, t.dst_port);
            let after = s.after_packet(bytes, now);
            if s.connections.contains_key(key) {
                after == StackView { connections: s.connections.remove(key), ..s }
            } else if s.listeners.contains_key(t.dst_port) && t.has(SYN) && !t.has(ACK) {
                &&& after == StackView { iss: after.iss, log: after.log, ..s }
                &&& after.iss == (s.iss * 1103515245 + 12345) % 0x1_0000_0000
                &&& after.log == s.log.push(
                    "connection from "@ + dotted(src) + ":"@ + port_text(t.src_port)
                        + " to port "@ + port_text(t.dst_port),
                )
            } else {
                after == s
            }
        }),
{
    let key = connection_key(src, t.src_port, t.dst_port);
    let after = s.after_packet(bytes, now);
    if !s.connections.contains_key(key) {
        assert(s.opened(src, t).connections.remove(key) =~= s.connections);
    }
}

/// A SYN to a port with a service opens a connection, which stands in the
/// table field by field as said here, and is answered by a SYN of our own,
/// which acknowledges it.
pub proof fn law_a_syn_opens_a_connection(
    s: StackView,
    bytes: Seq<u8>,
    src: Ipv4Addr,
    t: TcpView,
    now: u64,
)
    requires
        brings(s, bytes, src, t),
        !s.connections.contains_key(connection_key(src, t.src_port, t.dst_port)),
        s.listeners.contains_key(t.dst_port),
        t.has(SYN),
        !t.has(ACK),
        !t.has(RST),
    ensures
        ({
            let key = connection_key(src, t.src_port, t.dst_port);
            let after = s.after_packet(bytes, now);
            &&& after.iss == (s.iss * 1103515245 + 12345) % 0x1_0000_0000
            &&& after == StackView {
                iss: after.iss,
                connections: s.connections.insert(
                    key,
                    ConnView {
                        state: State::SynReceived,
                        local: (s.addr, t.dst_port),
                        remote: (src, t.src_port),
                        snd_una: after.iss,
                        snd_nxt: seq_add(after.iss, 1),
                        unacked: seq![
                            SentView { seq: after.iss, data: Seq::empty(), flags: 2 },
                        ],
                        send_queue: Seq::empty(),
                        fin_pending: false,
                        rcv_nxt: seq_add(t.seq, 1),
                        peer_window: t.window,
                        last_send_ms: now,
                        retries: 0,
                        time_wait_started: 0,
                        service: ServiceView {
                            behaviour: match s.listeners[t.dst_port] {
                                Listener::Echo => echo_behaviour(),
                                Listener::Http => http_behaviour(),
                            },
                            memory: Seq::empty(),
                        },
                    },
                ),
                log: s.log.push(
                    "connection from "@ + dotted(src) + ":"@ + port_text(t.src_port)
                        + " to port "@ + port_text(t.dst_port),
                ),
                ..s
            }
            &&& s.packet_out(bytes, now) == seq![
                tcp_packet(
                    s.addr,
                    src,
                    TcpView {
                        src_port: t.dst_port,
                        dst_port: t.src_port,
                        seq: after.iss,
                        ack: seq_add(t.seq, 1),
                        flags: 18,
                        window: 16384,
                        payload: Seq::empty(),
                    },
                ),
            ]
        }),
{
    let key = connection_key(src, t.src_port, t.dst_port);
    let o = s.opened(src, t);
    let after = s.after_packet(bytes, now);
    assert(o.connections.contains_key(key));
    let c = o.connections[key];
    assert(c.state == State::Listen);
    let l = o.listeners[t.dst_port];
    let (answer, farewell) = reaction(l, c, t, now);
    law_syn_field_by_field(c, t, now, answer, farewell);
    let out = served_out(l, c, t, now);
    let d = served(l, c, t, now);
    let sent = SentView { seq: c.snd_nxt, data: Seq::empty(), flags: 2 };
    assert(c.unacked + seq![sent] =~= seq![sent]);
    assert(o.wrapped_all(c, out) =~= seq![
        o.wrapped(c.remote.0, c.remote.1, c.local.1, out[0]),
    ]);
    assert(after.connections =~= s.connections.insert(key, d));
}

/// A connection of a port reacts as its service does: echo ports answer data
/// by the same data, page ports gather the request and answer it by the page
/// and the close once its head is complete, and neither has last words.
pub proof fn law_services_react(l: Listener, c: ConnView, t: TcpView, now: u64)
    ensures
        ({
            let m = c.service.memory;
            let request = m + t.payload;
            let answer = match l {
                Listener::Echo => Answer { reply: t.payload, close: false, memory: m },
                Listener::Http => if has_blank_line(request) {
                    Answer { reply: page_bytes(text_in(request)), close: true, memory: request }
                } else {
                    Answer { reply: Seq::empty(), close: false, memory: request }
                },
            };
            let farewell = Farewell {
                bytes: Seq::empty(),
                memory: if asks(c, t, now) {
                    answer.memory
                } else {
                    m
                },
            };
            &&& served(l, c, t, now) == c.after_segment(t, now, answer, farewell)
            &&& served_out(l, c, t, now) == c.segment_out(t, now, answer, farewell)
        }),
{
    let (answer, farewell) = reaction(l, c, t, now);
    let m = c.service.memory;
    assert(c.after_ack(t, now).service == c.service);
    let other = Farewell {
        bytes: Seq::empty(),
        memory: if asks(c, t, now) {
            answer.memory
        } else {
            m
        },
    };
    lemma_asked(c, t, now, answer);
    law_unasked_services_are_not_heard(c, t, now, answer, farewell, answer, other);
}

/// A segment of a connection moves that connection on, or drops it from the
/// table when it closes, and changes nothing else.
pub proof fn law_a_segment_moves_its_connection_on(
    s: StackView,
    bytes: Seq<u8>,
    src: Ipv4Addr,
    t: TcpView,
    now: u64,
)
    requires
        brings(s, bytes, src, t),
        s.connections.contains_key(connection_key(src, t.src_port, t.dst_port)),
    ensures
        ({
            let key = connection_key(src, t.src_port, t.dst_port);
            let c = s.connections[key];
            let d = served(s.listeners[t.dst_port], c, t, now);
            &&& s.after_packet(bytes, now) == StackView {
                connections: if d.state == State::Closed {
                    s.connections.remove(key)
                } else {
                    s.connections.insert(key, d)
                },
                ..s
            }
            &&& s.packet_out(bytes, now) == s.wrapped_all(
                c,
                served_out(s.listeners[t.dst_port], c, t, now),
            )
        }),
{
}

/// Every outgoing segment of a connection goes into one packet to its peer,
/// in order, with a window of 16384.
pub proof fn law_segments_are_wrapped(s: StackView, c: ConnView, out: Seq<OutView>, i: int)
    requires
        0 <= i < out.len(),
    ensures
        s.wrapped_all(c, out).len() == out.len(),
        s.wrapped_all(c, out)[i] == tcp_packet(
            s.addr,
            c.remote.0,
            TcpView {
                src_port: c.local.1,
                dst_port: c.remote.1,
                seq: out[i].seq,
                ack: out[i].ack,
                flags: out[i].flags,
                window: 16384,
                payload: out[i].payload,
            },
        ),
{
}

/// The passing of time reaches every connection: each does what it does then,
/// those that close are gone, and nothing else changes; what they send comes
/// out connection by connection.
pub proof fn law_time_reaches_every_connection(
    s: StackView,
    now: u64,
    key: u64,
    keys: Seq<u64>,
)
    ensures
        ({
            let after = s.after_tick(now);
            let d = s.connections[key].after_tick(now);
            &&& after == StackView { connections: after.connections, ..s }
            &&& after.connections.contains_key(key) <==> s.connections.contains_key(key)
                && d.state != State::Closed
            &&& after.connections.contains_key(key) ==> after.connections[key] == d
        }),
        s.tick_out(Seq::empty(), now).len() == 0,
        s.tick_out(keys.push(key), now) == s.tick_out(keys, now) + s.wrapped_all(
            s.connections[key],
            s.connections[key].tick_out(now),
        ),
        s.lists_connections(keys) <==> keys.no_duplicates() && forall|k: u64|
            keys.contains(k) <==> s.connections.contains_key(k),
{
    assert(keys.push(key).drop_last() =~= keys);
    if keys.no_duplicates() && forall|k: u64| keys.contains(k) <==> s.connections.contains_key(k) {
        assert(keys.to_set() =~= s.connections.dom());
    }
    if s.lists_connections(keys) {
        assert forall|k: u64| keys.contains(k) <==> s.connections.contains_key(k) by {
            assert(keys.to_set().contains(k) == s.connections.dom().contains(k));
        }
    }
}

/// Connections are told apart by the address and the port of the peer and the
/// local port.
pub proof fn law_keys_tell_connections_apart(
    a: Ipv4Addr,
    a_port: u16,
    a_local: u16,
    b: Ipv4Addr,
    b_port: u16,
    b_local: u16,
)
    ensures
        connection_key(a, a_port, a_local) == connection_key(b, b_port, b_local) <==> (
        a == b && a_port == b_port && a_local == b_local),
{
    if connection_key(a, a_port, a_local) == connection_key(b, b_port, b_local) {
        lemma_connection_key(a, a_port, a_local, b, b_port, b_local);
    }
}

/// The contents of lists of lines and of packets are those of their items, in
/// order.
pub proof fn law_lists_of_lines_and_packets(log: Seq<String>, packets: Seq<Vec<u8>>, i: int)
    ensures
        line_views(log).len() == log.len(),
        packet_views(packets).len() == packets.len(),
        0 <= i < log.len() ==> line_views(log)[i] == log[i]@,
        0 <= i < packets.len() ==> packet_views(packets)[i] == packets[i]@,
{
}

/// A segment of a connection reaches that connection and its service, and
/// what they send goes back to the peer.
pub proof fn law_segments_reach_their_connection(
    s: StackView,
    bytes: Seq<u8>,
    src: Ipv4Addr,
    t: TcpView,
    now: u64,
)
    requires
        brings(s, bytes, src, t),
        s.connections.contains_key(connection_key(src, t.src_port, t.dst_port)),
    ensures
        ({
            let key = connection_key(src, t.src_port, t.dst_port);
            let c = s.connections[key];
            let l = s.listeners[t.dst_port];
            &&& s.after_packet(bytes, now) == s.updated(key, served(l, c, t, now))
            &&& s.packet_out(bytes, now) == s.wrapped_all(c, served_out(l, c, t, now))
        }),
{
}

/// Data to an echo port come back: on an established connection with an
/// empty queue, the payloads of the answer make up the data, if the window
/// has room for them.
pub proof fn law_echo_through_the_stack(
    s: StackView,
    bytes: Seq<u8>,
    src: Ipv4Addr,
    t: TcpView,
    now: u64,
)
    requires
        s.wf(),
        brings(s, bytes, src, t),
        s.connections.contains_key(connection_key(src, t.src_port, t.dst_port)),
        s.listeners[t.dst_port] == Listener::Echo,
        t.payload.len() > 0,
        !t.has(FIN),
        !t.has(RST),
        ({
            let c = s.connections[connection_key(src, t.src_port, t.dst_port)];
            let acked = c.after_ack(t, now);
            &&& c.state == State::Established
            &&& c.send_queue.len() == 0
            &&& t.seq == c.rcv_nxt
            &&& data_len(acked.unacked) + t.payload.len() <= acked.peer_window
        }),
    ensures
        ({
            let c = s.connections[connection_key(src, t.src_port, t.dst_port)];
            let out = served_out(Listener::Echo, c, t, now);
            &&& s.packet_out(bytes, now) == s.wrapped_all(c, out)
            &&& payloads(out) == t.payload
        }),
{
    let key = connection_key(src, t.src_port, t.dst_port);
    let c = s.connections[key];
    law_segments_reach_their_connection(s, bytes, src, t, now);
    assert(s.connection_ok(key));
    let (answer, farewell) = reaction(Listener::Echo, c, t, now);
    law_answers_go_out(c, t, now, answer, farewell);
}

/// A request to a page port is answered by the page and a FIN: on an
/// established connection with an empty queue, data that complete the head
/// of the request bring the page out whole, if the window has room for it.
pub proof fn law_page_through_the_stack(
    s: StackView,
    bytes: Seq<u8>,
    src: Ipv4Addr,
    t: TcpView,
    now: u64,
)
    requires
        s.wf(),
        brings(s, bytes, src, t),
        s.connections.contains_key(connection_key(src, t.src_port, t.dst_port)),
        s.listeners[t.dst_port] == Listener::Http,
        t.payload.len() > 0,
        !t.has(FIN),
        !t.has(RST),
        ({
            let c = s.connections[connection_key(src, t.src_port, t.dst_port)];
            let acked = c.after_ack(t, now);
            let request = c.service.memory + t.payload;
            &&& c.state == State::Established
            &&& c.send_queue.len() == 0
            &&& t.seq == c.rcv_nxt
            &&& has_blank_line(request)
            &&& data_len(acked.unacked) + page_bytes(text_in(request)).len()
                <= acked.peer_window
        }),
    ensures
        ({
            let key = connection_key(src, t.src_port, t.dst_port);
            let c = s.connections[key];
            let out = served_out(Listener::Http, c, t, now);
            let after = s.after_packet(bytes, now);
            &&& s.packet_out(bytes, now) == s.wrapped_all(c, out)
            &&& payloads(out) == page_bytes(text_in(c.service.memory + t.payload))
            &&& out.last().flags == FIN | ACK
            &&& after.connections.contains_key(key)
            &&& after.connections[key].state == State::FinWait1
        }),
{
    let key = connection_key(src, t.src_port, t.dst_port);
    let c = s.connections[key];
    law_segments_reach_their_connection(s, bytes, src, t, now);
    assert(s.connection_ok(key));
    let (answer, farewell) = reaction(Listener::Http, c, t, now);
    law_we_close_first(c, t, now, answer, farewell);
    assert(c.send_queue + answer.reply =~= answer.reply);
}

// ---------------------------------------------------------------- what stays

/// A packet changes no connection but that of the address and ports that its
/// segment names, whatever it holds.
pub proof fn law_other_connections_are_untouched(
    s: StackView,
    bytes: Seq<u8>,
    now: u64,
    remote: Ipv4Addr,
    remote_port: u16,
    local_port: u16,
)
    requires
        ({
            let p = ipv4_fields(bytes);
            let seg = tcp_fields(p.payload);
            (remote, remote_port, local_port) != (p.src, seg.src_port, seg.dst_port)
        }),
    ensures
        ({
            let key = connection_key(remote, remote_port, local_port);
            let after = s.after_packet(bytes, now);
            &&& after.connections.contains_key(key) == s.connections.contains_key(key)
            &&& s.connections.contains_key(key) ==> after.connections[key] == s.connections[key]
        }),
{
    let p = ipv4_fields(bytes);
    let seg = tcp_fields(p.payload);
    if connection_key(remote, remote_port, local_port) == connection_key(
        p.src,
        seg.src_port,
        seg.dst_port,
    ) {
        lemma_connection_key(
            remote,
            remote_port,
            local_port,
            p.src,
            seg.src_port,
            seg.dst_port,
        );
    }
}

/// A segment that is rejected changes no connection.
pub proof fn law_rejected_segments_change_no_connection(s: StackView, bytes: Seq<u8>, now: u64)
    requires
        arrives(s, bytes, PROTO_TCP),
        tcp_fault(ipv4_fields(bytes).src, s.addr, ipv4_fields(bytes).payload) is Some,
    ensures
        s.packet_out(bytes, now).len() == 0,
        s.after_packet(bytes, now).connections == s.connections,
        s.after_packet(bytes, now).log == s.log.push(
            "dropped: "@ + tcp_fault(
                ipv4_fields(bytes).src,
                s.addr,
                ipv4_fields(bytes).payload,
            )->0,
        ),
{
}

/// Only TCP packets change the connections.
pub proof fn law_other_protocols_leave_connections_alone(s: StackView, bytes: Seq<u8>, now: u64)
    requires
        ipv4_fields(bytes).protocol != PROTO_TCP,
    ensures
        s.after_packet(bytes, now).connections == s.connections,
        s.after_packet(bytes, now).iss == s.iss,
{
}

/// No packet and no passing of time changes the address or the services of a
/// stack, and the log only grows.
pub proof fn law_configuration_stays(s: StackView, bytes: Seq<u8>, now: u64)
    ensures
        ({
            let after = s.after_packet(bytes, now);
            &&& after.addr == s.addr
            &&& after.listeners == s.listeners
            &&& after.udp_echo_ports == s.udp_echo_ports
            &&& s.log.len() <= after.log.len() <= s.log.len() + 1
            &&& after.log.take(s.log.len() as int) == s.log
        }),
        s.after_tick(now) == (StackView { connections: s.after_tick(now).connections, ..s }),
{
    let after = s.after_packet(bytes, now);
    assert(after.log == s.log || exists|line: Seq<char>| after.log == #[trigger] s.log.push(line));
    assert(after.log.take(s.log.len() as int) =~= s.log);
}

/// A closed connection is gone, and none waits for a SYN: neither is in the
/// table after any packet or any passing of time.
pub proof fn law_closed_connections_are_removed(s: StackView, key: u64)
    requires
        s.wf(),
        s.connections.contains_key(key),
    ensures
        s.connections[key].state != State::Closed,
        s.connections[key].state != State::Listen,
{
    assert(s.connection_ok(key));
}

/// The passing of time has its effect once: a second time at the same moment
/// the stack sends nothing and stays as it is.
pub proof fn law_time_passes_once_for_the_stack(s: StackView, keys: Seq<u64>, now: u64)
    requires
        s.wf(),
        s.after_tick(now).lists_connections(keys),
    ensures
        s.after_tick(now).after_tick(now) == s.after_tick(now),
        s.after_tick(now).tick_out(keys, now).len() == 0,
{
    let t = s.after_tick(now);
    assert forall|key: u64| #[trigger] t.connections.contains_key(key) implies {
        &&& t.connections[key].after_tick(now) == t.connections[key]
        &&& t.connections[key].tick_out(now).len() == 0
        &&& t.connections[key].state != State::Closed
    } by {
        assert(s.connection_ok(key));
        law_time_passes_once(s.connections[key], now);
    }
    assert(t.after_tick(now).connections =~= t.connections);
    assert forall|i: int| 0 <= i < keys.len() implies (
    #[trigger] t.connections[keys[i]]).tick_out(now).len() == 0 by {
        assert(keys.to_set().contains(keys[i]));
        assert(t.connections.contains_key(keys[i]));
    }
    law_quiet_connections_send_nothing(t, keys, now);
}

/// As time passes every connection gets to send what it has to send, all of
/// it together, in whatever order the connections come.
pub proof fn law_time_serves_every_connection(s: StackView, keys: Seq<u64>, now: u64, key: u64)
    requires
        s.lists_connections(keys),
        s.connections.contains_key(key),
    ensures
        exists|before: Seq<Seq<u8>>, after: Seq<Seq<u8>>|
            s.tick_out(keys, now) == #[trigger] (before + s.tick_packets(key, now) + after),
{
    assert(keys.to_set().contains(key));
    let i = choose|i: int| 0 <= i < keys.len() && keys[i] == key;
    lemma_served(s, keys, i, now);
}

/// A segment that its peer does not acknowledge in time is sent again.
pub proof fn law_unanswered_segments_are_repeated(
    s: StackView,
    keys: Seq<u64>,
    now: u64,
    key: u64,
)
    requires
        s.lists_connections(keys),
        s.connections.contains_key(key),
        s.connections[key].overdue(now),
        !s.connections[key].expires(now),
    ensures
        ({
            let c = s.connections[key];
            s.tick_out(keys, now).contains(
                s.wrapped(c.remote.0, c.remote.1, c.local.1, c.repetition()),
            )
        }),
{
    let c = s.connections[key];
    law_time_serves_every_connection(s, keys, now, key);
    let (before, after) = choose|before: Seq<Seq<u8>>, after: Seq<Seq<u8>>|
        s.tick_out(keys, now) == #[trigger] (before + s.tick_packets(key, now) + after);
    let packet = s.wrapped(c.remote.0, c.remote.1, c.local.1, c.repetition());
    assert(c.tick_out(now)[0] == c.repetition());
    assert(s.tick_packets(key, now)[0] == packet);
    assert(s.tick_out(keys, now)[before.len() as int] == packet);
}

/// Nothing is sent as time passes if no connection has anything to send.
pub proof fn law_quiet_connections_send_nothing(s: StackView, keys: Seq<u64>, now: u64)
    requires
        forall|i: int|
            0 <= i < keys.len() ==> (#[trigger] s.connections[keys[i]]).tick_out(now).len() == 0,
    ensures
        s.tick_out(keys, now).len() == 0,
    decreases keys.len(),
{
    if keys.len() > 0 {
        let rest = keys.drop_last();
        assert forall|i: int| 0 <= i < rest.len() implies (
        #[trigger] s.connections[rest[i]]).tick_out(now).len() == 0 by {
            assert(rest[i] == keys[i]);
        }
        law_quiet_connections_send_nothing(s, rest, now);
        assert(s.connections[keys[keys.len() - 1]].tick_out(now).len() == 0);
    }
}

proof fn lemma_served(s: StackView, keys: Seq<u64>, i: int, now: u64)
    requires
        0 <= i < keys.len(),
    ensures
        exists|before: Seq<Seq<u8>>, after: Seq<Seq<u8>>|
            s.tick_out(keys, now) == #[trigger] (before + s.tick_packets(keys[i], now) + after),
    decreases keys.len(),
{
    let rest = s.tick_out(keys.drop_last(), now);
    let last = s.tick_packets(keys.last(), now);
    if i == keys.len() - 1 {
        assert(rest + last =~= rest + last + Seq::<Seq<u8>>::empty());
    } else {
        lemma_served(s, keys.drop_last(), i, now);
        let (before, after) = choose|before: Seq<Seq<u8>>, after: Seq<Seq<u8>>|
            rest == #[trigger] (before + s.tick_packets(keys.drop_last()[i], now) + after);
        assert(rest + last =~= before + s.tick_packets(keys[i], now) + (after + last));
    }
}

} // verus!
