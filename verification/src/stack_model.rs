//! The network stack as a mathematical object: what every packet and the
//! passing of time do to it, and what it sends.
use vstd::prelude::*;

use crate::connection_model::{ConnView, OutView};
use crate::http::{http_answer, http_behaviour};
use crate::packet::{
    icmp_bytes, icmp_fault, icmp_fields, ipv4_bytes, ipv4_fault, ipv4_fields, tcp_bytes, tcp_fault,
    tcp_fields, udp_bytes, udp_fault, udp_fields, IcmpView, Ipv4Addr, Ipv4View, TcpView, ACK,
    PROTO_ICMP, PROTO_TCP, PROTO_UDP, RST, SYN,
};
use crate::seqno::seq_add;
use crate::service::{echo_answer, echo_behaviour, Answer, Behaviour, Farewell, ServiceView};
use crate::stack::Listener;
use crate::tcp::{listening, State};
use crate::text::{decimal, dotted};

verus! {

/// The window that the stack announces.
pub const ANNOUNCED_WINDOW: u16 = 16384;

/// How the service behind a listening port behaves.
pub open spec fn listener_behaviour(l: Listener) -> Behaviour {
    match l {
        Listener::Echo => echo_behaviour(),
        Listener::Http => http_behaviour(),
    }
}

/// What the service behind a listening port answers.
pub open spec fn listener_answer(l: Listener, memory: Seq<u8>, data: Seq<u8>) -> Answer {
    match l {
        Listener::Echo => echo_answer(memory, data),
        Listener::Http => http_answer(memory, data),
    }
}

/// The key of a connection: the address and port of the peer and the local
/// port, side by side in 64 bits.
pub open spec fn connection_key(remote: Ipv4Addr, remote_port: u16, local_port: u16) -> u64 {
    (remote.0[0] * 0x100_0000_0000_0000 + remote.0[1] * 0x1_0000_0000_0000 + remote.0[2]
        * 0x100_0000_0000 + remote.0[3] * 0x1_0000_0000 + remote_port * 0x1_0000
        + local_port) as u64
}

/// The initial sequence number after `iss`.
pub open spec fn next_iss(iss: u32) -> u32 {
    ((iss * 1103515245 + 12345) % 0x1_0000_0000) as u32
}

/// What a connection of a listening port makes of a segment.
pub open spec fn served(l: Listener, c: ConnView, seg: TcpView, now: u64) -> ConnView {
    let (answer, farewell) = reaction(l, c, seg, now);
    c.after_segment(seg, now, answer, farewell)
}

/// What a connection of a listening port sends on a segment.
pub open spec fn served_out(l: Listener, c: ConnView, seg: TcpView, now: u64) -> Seq<OutView> {
    let (answer, farewell) = reaction(l, c, seg, now);
    c.segment_out(seg, now, answer, farewell)
}

/// How the service of a listening port reacts to a segment: by its answer to
/// the data, and by no word to the FIN.
pub open spec fn reaction(l: Listener, c: ConnView, seg: TcpView, now: u64) -> (Answer, Farewell) {
    let acked = c.after_ack(seg, now);
    let answer = listener_answer(l, acked.service.memory, seg.payload);
    let fed = acked.after_data(seg, answer);
    (answer, Farewell { bytes: Seq::empty(), memory: fed.service.memory })
}

/// The log line on a packet of a protocol that the stack does not speak.
pub open spec fn unsupported_line(protocol: u8) -> Seq<char> {
    "unsupported protocol "@ + decimal(protocol as nat)
}

/// The log line on a datagram to a port where nobody listens.
pub open spec fn closed_port_line(port: u16) -> Seq<char> {
    "udp to closed port "@ + decimal(port as nat)
}

/// The log line on a new connection.
pub open spec fn connection_line(src: Ipv4Addr, src_port: u16, dst_port: u16) -> Seq<char> {
    "connection from "@ + dotted(src) + ":"@ + decimal(src_port as nat) + " to port "@ + decimal(
        dst_port as nat,
    )
}

/// A network stack.
pub struct StackView {
    pub addr: Ipv4Addr,
    pub connections: Map<u64, ConnView>,
    pub listeners: Map<u16, Listener>,
    pub udp_echo_ports: Seq<u16>,
    pub iss: u32,
    pub log: Seq<Seq<char>>,
}

impl StackView {
    /// What every connection in the table satisfies.
    pub open spec fn connection_ok(self, key: u64) -> bool {
        let c = self.connections[key];
        &&& c.wf()
        &&& c.state != State::Closed
        &&& key == connection_key(c.remote.0, c.remote.1, c.local.1)
        &&& self.listeners.contains_key(c.local.1)
        &&& c.service.behaviour == listener_behaviour(self.listeners[c.local.1])
    }

    /// Whether every connection is in order.
    pub open spec fn in_order(self) -> bool {
        forall|key: u64| #[trigger]
            self.connections.contains_key(key) ==> self.connection_ok(key)
    }

    /// Whether no connection waits for a SYN, except perhaps that of `key`.
    pub open spec fn waits_only_at(self, key: u64) -> bool {
        forall|k: u64| #[trigger]
            self.connections.contains_key(k) && k != key ==> self.connections[k].state
                != State::Listen
    }

    /// What every stack satisfies: its connections are in order, none is
    /// closed or still waits for a SYN, each stands under its own key and runs
    /// the service of its port.
    pub open spec fn wf(self) -> bool {
        &&& self.in_order()
        &&& forall|key: u64| #[trigger]
            self.connections.contains_key(key) ==> self.connections[key].state != State::Listen
    }

    /// The stack with one more line in its log.
    pub open spec fn logged(self, line: Seq<char>) -> StackView {
        StackView { log: self.log.push(line), ..self }
    }

    // ---- ICMP

    /// Whether an ICMP message is a request for an echo.
    pub open spec fn is_ping(icmp: IcmpView) -> bool {
        icmp.kind == 8 && icmp.code == 0
    }

    pub open spec fn after_icmp(self, p: Ipv4View) -> StackView {
        match icmp_fault(p.payload) {
            Some(e) => self.logged("dropped: "@ + e),
            None => if Self::is_ping(icmp_fields(p.payload)) {
                self.logged("ping from "@ + dotted(p.src))
            } else {
                self
            },
        }
    }

    pub open spec fn icmp_out(self, p: Ipv4View) -> Seq<Seq<u8>> {
        let icmp = icmp_fields(p.payload);
        if icmp_fault(p.payload) is None && Self::is_ping(icmp) {
            seq![
                ipv4_bytes(
                    self.addr,
                    p.src,
                    PROTO_ICMP,
                    icmp_bytes(0, 0, icmp.rest, icmp.payload),
                ),
            ]
        } else {
            Seq::empty()
        }
    }

    // ---- UDP

    pub open spec fn after_udp(self, p: Ipv4View) -> StackView {
        let udp = udp_fields(p.payload);
        match udp_fault(p.src, p.dst, p.payload) {
            Some(e) => self.logged("dropped: "@ + e),
            None => if self.udp_echo_ports.contains(udp.dst_port) {
                self
            } else {
                self.logged(closed_port_line(udp.dst_port))
            },
        }
    }

    /// The echo of a datagram, or, from a closed port, an ICMP message that
    /// the port is unreachable, with the start of the packet that asked for it.
    pub open spec fn udp_out(self, p: Ipv4View) -> Seq<Seq<u8>> {
        let udp = udp_fields(p.payload);
        if udp_fault(p.src, p.dst, p.payload) is Some {
            Seq::empty()
        } else if self.udp_echo_ports.contains(udp.dst_port) {
            seq![
                ipv4_bytes(
                    self.addr,
                    p.src,
                    PROTO_UDP,
                    udp_bytes(self.addr, p.src, udp.dst_port, udp.src_port, udp.payload),
                ),
            ]
        } else {
            seq![
                ipv4_bytes(
                    self.addr,
                    p.src,
                    PROTO_ICMP,
                    icmp_bytes(
                        3,
                        3,
                        seq![0, 0, 0, 0],
                        ipv4_bytes(p.src, p.dst, PROTO_UDP, p.payload.take(8)),
                    ),
                ),
            ]
        }
    }

    // ---- TCP

    /// The packet that carries an outgoing segment.
    pub open spec fn wrapped(
        self,
        remote: Ipv4Addr,
        remote_port: u16,
        local_port: u16,
        o: OutView,
    ) -> Seq<u8> {
        let t = TcpView {
            src_port: local_port,
            dst_port: remote_port,
            seq: o.seq,
            ack: o.ack,
            flags: o.flags,
            window: ANNOUNCED_WINDOW,
            payload: o.payload,
        };
        ipv4_bytes(self.addr, remote, PROTO_TCP, tcp_bytes(self.addr, remote, t))
    }

    /// The packets that carry the outgoing segments of a connection.
    pub open spec fn wrapped_all(self, c: ConnView, out: Seq<OutView>) -> Seq<Seq<u8>> {
        Seq::new(out.len(), |i: int| self.wrapped(c.remote.0, c.remote.1, c.local.1, out[i]))
    }

    /// Whether a segment opens a connection: a first SYN to a listening port.
    pub open spec fn opens(self, seg: TcpView) -> bool {
        self.listeners.contains_key(seg.dst_port) && seg.has(SYN) && !seg.has(ACK)
    }

    /// The stack when a segment has opened a connection that waits for it.
    pub open spec fn opened(self, src: Ipv4Addr, seg: TcpView) -> StackView {
        let iss = next_iss(self.iss);
        let service = ServiceView {
            behaviour: listener_behaviour(self.listeners[seg.dst_port]),
            memory: Seq::empty(),
        };
        StackView {
            iss,
            connections: self.connections.insert(
                connection_key(src, seg.src_port, seg.dst_port),
                listening((self.addr, seg.dst_port), (src, seg.src_port), iss, service),
            ),
            ..self.logged(connection_line(src, seg.src_port, seg.dst_port))
        }
    }

    /// The stack with a new state of one connection; a closed one is dropped.
    pub open spec fn updated(self, key: u64, c: ConnView) -> StackView {
        StackView {
            connections: if c.state == State::Closed {
                self.connections.remove(key)
            } else {
                self.connections.insert(key, c)
            },
            ..self
        }
    }

    /// The stack when a segment has reached the connection of its key.
    pub open spec fn delivered(self, key: u64, seg: TcpView, now: u64) -> StackView {
        self.updated(
            key,
            served(self.listeners[seg.dst_port], self.connections[key], seg, now),
        )
    }

    /// What the connection of a key sends on a segment.
    pub open spec fn delivered_out(self, key: u64, seg: TcpView, now: u64) -> Seq<Seq<u8>> {
        let c = self.connections[key];
        self.wrapped_all(c, served_out(self.listeners[seg.dst_port], c, seg, now))
    }

    /// The reset that answers a segment to nobody.
    pub open spec fn reset(self, src: Ipv4Addr, seg: TcpView) -> Seq<u8> {
        let t = TcpView {
            src_port: seg.dst_port,
            dst_port: seg.src_port,
            seq: if seg.has(ACK) {
                seg.ack
            } else {
                0
            },
            ack: if seg.has(ACK) {
                0
            } else {
                seq_add(seg.seq, seg.payload.len() + 1)
            },
            flags: if seg.has(ACK) {
                RST
            } else {
                RST | ACK
            },
            window: 0,
            payload: Seq::empty(),
        };
        ipv4_bytes(self.addr, src, PROTO_TCP, tcp_bytes(self.addr, src, t))
    }

    pub open spec fn after_tcp(self, p: Ipv4View, now: u64) -> StackView {
        let seg = tcp_fields(p.payload);
        let key = connection_key(p.src, seg.src_port, seg.dst_port);
        match tcp_fault(p.src, p.dst, p.payload) {
            Some(e) => self.logged("dropped: "@ + e),
            None => if self.connections.contains_key(key) {
                self.delivered(key, seg, now)
            } else if self.opens(seg) {
                self.opened(p.src, seg).delivered(key, seg, now)
            } else {
                self
            },
        }
    }

    pub open spec fn tcp_out(self, p: Ipv4View, now: u64) -> Seq<Seq<u8>> {
        let seg = tcp_fields(p.payload);
        let key = connection_key(p.src, seg.src_port, seg.dst_port);
        if tcp_fault(p.src, p.dst, p.payload) is Some {
            Seq::empty()
        } else if self.connections.contains_key(key) {
            self.delivered_out(key, seg, now)
        } else if self.opens(seg) {
            self.opened(p.src, seg).delivered_out(key, seg, now)
        } else if seg.has(RST) {
            Seq::empty()
        } else {
            seq![self.reset(p.src, seg)]
        }
    }

    // ---- packets

    /// The stack after a packet from the wire.
    pub open spec fn after_packet(self, bytes: Seq<u8>, now: u64) -> StackView {
        let p = ipv4_fields(bytes);
        match ipv4_fault(bytes) {
            Some(e) => self.logged("dropped: "@ + e),
            None => if p.dst != self.addr {
                self
            } else if p.protocol == PROTO_ICMP {
                self.after_icmp(p)
            } else if p.protocol == PROTO_UDP {
                self.after_udp(p)
            } else if p.protocol == PROTO_TCP {
                self.after_tcp(p, now)
            } else {
                self.logged(unsupported_line(p.protocol))
            },
        }
    }

    /// What the stack sends on a packet from the wire.
    pub open spec fn packet_out(self, bytes: Seq<u8>, now: u64) -> Seq<Seq<u8>> {
        let p = ipv4_fields(bytes);
        if ipv4_fault(bytes) is Some || p.dst != self.addr {
            Seq::empty()
        } else if p.protocol == PROTO_ICMP {
            self.icmp_out(p)
        } else if p.protocol == PROTO_UDP {
            self.udp_out(p)
        } else if p.protocol == PROTO_TCP {
            self.tcp_out(p, now)
        } else {
            Seq::empty()
        }
    }

    // ---- time

    /// The stack as time passes: every connection does what it does then, and
    /// those that close are dropped.
    pub open spec fn after_tick(self, now: u64) -> StackView {
        StackView {
            connections: Map::new(
                |key: u64|
                    self.connections.contains_key(key) && self.connections[key].after_tick(
                        now,
                    ).state != State::Closed,
                |key: u64| self.connections[key].after_tick(now),
            ),
            ..self
        }
    }

    /// What the connection of a key sends as time passes.
    pub open spec fn tick_packets(self, key: u64, now: u64) -> Seq<Seq<u8>> {
        let c = self.connections[key];
        self.wrapped_all(c, c.tick_out(now))
    }

    /// What the connections of some keys send as time passes, in that order.
    pub open spec fn tick_out(self, keys: Seq<u64>, now: u64) -> Seq<Seq<u8>>
        decreases keys.len(),
    {
        if keys.len() == 0 {
            Seq::empty()
        } else {
            self.tick_out(keys.drop_last(), now) + self.tick_packets(keys.last(), now)
        }
    }

    /// Whether `keys` lists every connection once.
    pub open spec fn lists_connections(self, keys: Seq<u64>) -> bool {
        keys.no_duplicates() && keys.to_set() == self.connections.dom()
    }
}

} // verus!
