//! The network stack: takes raw IPv4 packets, demultiplexes them to ICMP,
//! UDP and TCP, and returns the packets to send. It does no I/O of its own.
use std::collections::HashMap;
use vstd::prelude::*;
use vstd::std_specs::iter::IteratorSpec;
use vstd::string::StringExecFns;

use crate::checksum::lemma_word_sum_bound;
use crate::connection_model::ConnView;
use crate::connection_proof::{lemma_segment_out_small, lemma_tick_out_small};

use crate::packet::{
    icmp_message, tcp_segment, tcp_summed, udp_summed, Icmp, Ipv4Addr, Ipv4Packet, TcpSegment,
    TcpView, Udp, ACK, PROTO_ICMP, PROTO_TCP, PROTO_UDP, RST, SYN,
};
use crate::seqno::advance;
use crate::service::{Answer, Echo, Farewell, ServiceView};
use crate::stack_model::{
    closed_port_line, connection_key, connection_line, listener_behaviour, next_iss, served,
    served_out, unsupported_line, StackView, ANNOUNCED_WINDOW,
};
use crate::stack_proof::{
    lemma_connection_key, lemma_opened_wf, lemma_reaction, lemma_served_state, lemma_ticked_all,
    lemma_ticked_none, lemma_ticked_one, lemma_updated_wf, ticked,
};
use crate::tcp::{listening, out_views, Connection, Http, Outgoing, State, MSS};
use crate::text::{dotted, push_decimal};

verus! {

/// The services that ports can listen with.
#[derive(Debug, Clone, Copy, PartialEq, Eq, Structural)]
pub enum Listener {
    Echo,
    Http,
}

impl Listener {
    /// A new connection with a fresh service.
    fn connection(self, local: (Ipv4Addr, u16), remote: (Ipv4Addr, u16), iss: u32) -> (c:
        Connection)
        ensures
            c@ == listening(
                local,
                remote,
                iss,
                ServiceView { behaviour: listener_behaviour(self), memory: Seq::empty() },
            ),
            c.wf(),
    {
        match self {
            Listener::Echo => Connection::new(local, remote, iss, Box::new(Echo)),
            Listener::Http => Connection::new(local, remote, iss, Box::new(Http::new())),
        }
    }
}

/// The part of a stack that its own methods alone can read and change.
pub struct Tables {
    connections: HashMap<u64, Connection>,
    listeners: HashMap<u16, Listener>,
    udp_echo_ports: Vec<u16>,
    iss: u32,
}

pub struct Stack {
    pub addr: Ipv4Addr,
    pub tables: Tables,
    pub log: Vec<String>,
}

/// The contents of a list of lines.
pub open spec fn line_views(log: Seq<String>) -> Seq<Seq<char>> {
    Seq::new(log.len(), |i: int| log[i]@)
}

/// The contents of a list of packets.
pub open spec fn packet_views(packets: Seq<Vec<u8>>) -> Seq<Seq<u8>> {
    Seq::new(packets.len(), |i: int| packets[i]@)
}

impl View for Stack {
    type V = StackView;

    closed spec fn view(&self) -> StackView {
        StackView {
            addr: self.addr,
            connections: self.tables.connections@.map_values(|c: Connection| c@),
            listeners: self.tables.listeners@,
            udp_echo_ports: self.tables.udp_echo_ports@,
            iss: self.tables.iss,
            log: line_views(self.log@),
        }
    }
}

fn key_of(remote: Ipv4Addr, remote_port: u16, local_port: u16) -> (key: u64)
    ensures
        key == connection_key(remote, remote_port, local_port),
{
    remote.0[0] as u64 * 0x100_0000_0000_0000 + remote.0[1] as u64 * 0x1_0000_0000_0000
        + remote.0[2] as u64 * 0x100_0000_0000 + remote.0[3] as u64 * 0x1_0000_0000
        + remote_port as u64 * 0x1_0000 + local_port as u64
}

/// The initial sequence number after `iss`.
fn following(iss: u32) -> (next: u32)
    ensures
        next == next_iss(iss),
{
    proof {
        let x = iss * 1103515245;
        assert((x % 0x1_0000_0000 + 12345) % 0x1_0000_0000 == (x + 12345) % 0x1_0000_0000);
    }
    iss.wrapping_mul(1103515245).wrapping_add(12345)
}

/// A list of one packet.
fn only(packet: Vec<u8>) -> (packets: Vec<Vec<u8>>)
    ensures
        packet_views(packets@) == seq![packet@],
{
    let mut packets: Vec<Vec<u8>> = Vec::new();
    packets.push(packet);
    assert(packet_views(packets@) =~= seq![packet@]);
    packets
}

/// No packets.
fn none() -> (packets: Vec<Vec<u8>>)
    ensures
        packet_views(packets@) == Seq::<Seq<u8>>::empty(),
{
    let packets: Vec<Vec<u8>> = Vec::new();
    assert(packet_views(packets@) =~= Seq::<Seq<u8>>::empty());
    packets
}

/// The log line on a packet of a protocol that the stack does not speak.
fn unsupported(protocol: u8) -> (line: String)
    ensures
        line@ == unsupported_line(protocol),
{
    let mut line = String::new();
    line.append("unsupported protocol ");
    push_decimal(&mut line, protocol as usize);
    assert(line@ =~= unsupported_line(protocol));
    line
}

/// The log line on a datagram to a port where nobody listens.
fn closed_port(port: u16) -> (line: String)
    ensures
        line@ == closed_port_line(port),
{
    let mut line = String::new();
    line.append("udp to closed port ");
    push_decimal(&mut line, port as usize);
    assert(line@ =~= closed_port_line(port));
    line
}

/// The log line on a new connection.
fn new_connection(src: Ipv4Addr, src_port: u16, dst_port: u16) -> (line: String)
    ensures
        line@ == connection_line(src, src_port, dst_port),
{
    let mut line = String::new();
    line.append("connection from ");
    line.append(src.to_string().as_str());
    line.append(":");
    push_decimal(&mut line, src_port as usize);
    line.append(" to port ");
    push_decimal(&mut line, dst_port as usize);
    assert(line@ =~= connection_line(src, src_port, dst_port));
    line
}

/// Hands a segment to a connection whose service is that of a listening port.
fn serve(conn: &mut Connection, seg: &TcpSegment, now_ms: u64, Ghost(l): Ghost<Listener>) -> (out:
    Vec<Outgoing>)
    requires
        old(conn).wf(),
        old(conn)@.service.behaviour == listener_behaviour(l),
    ensures
        final(conn).wf(),
        final(conn)@ == served(l, old(conn)@, seg@, now_ms),
        final(conn)@.remote == old(conn)@.remote,
        final(conn)@.local == old(conn)@.local,
        final(conn)@.service.behaviour == old(conn)@.service.behaviour,
        out_views(out@) == served_out(l, old(conn)@, seg@, now_ms),
        forall|i: int|
            0 <= i < out@.len() ==> (#[trigger] out_views(out@)[i]).payload.len() <= MSS,
{
    let ghost c = conn@;
    let out: Vec<Outgoing> = conn.on_segment(seg, now_ms);
    proof {
        let (answer, farewell) = choose|answer: Answer, farewell: Farewell|
            {
                &&& #[trigger] c.may_react(seg@, now_ms, answer, farewell)
                &&& conn@ == c.after_segment(seg@, now_ms, answer, farewell)
                &&& out_views(out@) == c.segment_out(seg@, now_ms, answer, farewell)
            };
        lemma_reaction(l, c, seg@, now_ms, answer, farewell);
        lemma_segment_out_small(c, seg@, now_ms, answer, farewell);
    }
    out
}

impl Stack {
    /// Whether the stack is in order; see `StackView::wf`.
    pub open spec fn wf(&self) -> bool {
        self@.wf()
    }

    /// A stack with an echo service on port 7 and a page on ports 80 and
    /// 8080, and UDP echo on port 7.
    pub fn new(addr: Ipv4Addr) -> (s: Self)
        ensures
            s.wf(),
            s@ == (StackView {
                addr,
                connections: Map::empty(),
                listeners: map![
                    7u16 => Listener::Echo,
                    80u16 => Listener::Http,
                    8080u16 => Listener::Http,
                ],
                udp_echo_ports: seq![7u16],
                iss: 0x1000,
                log: Seq::empty(),
            }),
    {
        let mut listeners: HashMap<u16, Listener> = HashMap::new();
        listeners.insert(7, Listener::Echo);
        listeners.insert(80, Listener::Http);
        listeners.insert(8080, Listener::Http);
        let mut udp_echo_ports: Vec<u16> = Vec::new();
        udp_echo_ports.push(7);
        let s = Stack {
            addr,
            tables: Tables {
                connections: HashMap::new(),
                listeners,
                udp_echo_ports,
                iss: 0x1000,
            },
            log: Vec::new(),
        };
        assert(s@.connections =~= Map::empty());
        assert(s@.log =~= Seq::empty());
        assert(s@.udp_echo_ports =~= seq![7u16]);
        assert(s@.listeners =~= map![
            7u16 => Listener::Echo,
            80u16 => Listener::Http,
            8080u16 => Listener::Http,
        ]);
        s
    }

    /// The fields are what the view says.
    pub proof fn lemma_fields(&self)
        ensures
            self@.addr == self.addr,
            self@.log == line_views(self.log@),
    {
    }

    /// The address of the stack.
    pub fn addr(&self) -> (addr: Ipv4Addr)
        ensures
            addr == self@.addr,
    {
        self.addr
    }

    /// The lines of the log.
    pub fn log(&self) -> (lines: &Vec<String>)
        ensures
            line_views(lines@) == self@.log,
    {
        &self.log
    }

    /// Takes the lines out of the log.
    pub fn take_log(&mut self) -> (lines: Vec<String>)
        ensures
            line_views(lines@) == old(self)@.log,
            final(self)@ == (StackView { log: Seq::empty(), ..old(self)@ }),
            old(self).wf() ==> final(self).wf(),
    {
        let mut lines: Vec<String> = Vec::new();
        std::mem::swap(&mut lines, &mut self.log);
        assert(self@.log =~= Seq::empty());
        proof {
            if old(self).wf() {
                assert forall|key: u64| #[trigger]
                    self@.connections.contains_key(key) implies self@.connection_ok(key) by {
                    assert(old(self)@.connection_ok(key));
                }
            }
        }
        lines
    }

    pub fn connection_count(&self) -> (n: usize)
        ensures
            n == self@.connections.len(),
    {
        assert(self@.connections.dom() =~= self.tables.connections@.dom());
        self.tables.connections.len()
    }

    pub fn connection_state(&self, remote: Ipv4Addr, remote_port: u16, local_port: u16) -> (r:
        Option<State>)
        ensures
            ({
                let key = connection_key(remote, remote_port, local_port);
                r == if self@.connections.contains_key(key) {
                    Some(self@.connections[key].state)
                } else {
                    None
                }
            }),
    {
        match self.tables.connections.get(&key_of(remote, remote_port, local_port)) {
            Some(c) => Some(c.state()),
            None => None,
        }
    }

    /// Adds a line to the log.
    fn note(&mut self, line: String)
        ensures
            final(self)@ == old(self)@.logged(line@),
    {
        self.log.push(line);
        assert(self@.log =~= old(self)@.log.push(line@));
    }

    /// Notes that a packet was dropped.
    fn dropped(&mut self, e: &str)
        ensures
            final(self)@ == old(self)@.logged("dropped: "@ + e@),
    {
        let mut line = String::new();
        line.append("dropped: ");
        line.append(e);
        assert(line@ =~= "dropped: "@ + e@);
        self.note(line);
    }

    /// Processes one IPv4 packet from the wire; returns packets to transmit.
    pub fn handle(&mut self, bytes: &[u8], now_ms: u64) -> (out: Vec<Vec<u8>>)
        requires
            old(self).wf(),
        ensures
            final(self).wf(),
            final(self)@ == old(self)@.after_packet(bytes@, now_ms),
            packet_views(out@) == old(self)@.packet_out(bytes@, now_ms),
    {
        let packet = match Ipv4Packet::parse(bytes) {
            Ok(p) => p,
            Err(e) => {
                self.dropped(e);
                return none();
            },
        };
        if !packet.dst.same_as(&self.addr) {
            return none();
        }
        assert(packet@.payload.len() <= 0xFFFF);
        if packet.protocol == PROTO_ICMP {
            self.handle_icmp(&packet)
        } else if packet.protocol == PROTO_UDP {
            self.handle_udp(&packet)
        } else if packet.protocol == PROTO_TCP {
            self.handle_tcp(&packet, now_ms)
        } else {
            self.note(unsupported(packet.protocol));
            none()
        }
    }

    fn handle_icmp(&mut self, packet: &Ipv4Packet) -> (out: Vec<Vec<u8>>)
        requires
            old(self).wf(),
            packet@.payload.len() <= 0xFFFF,
        ensures
            final(self).wf(),
            final(self)@ == old(self)@.after_icmp(packet@),
            packet_views(out@) == old(self)@.icmp_out(packet@),
    {
        proof {
            lemma_word_sum_bound(packet.payload@);
        }
        match Icmp::parse(packet.payload) {
            Ok(icmp) => {
                if icmp.kind == 8 && icmp.code == 0 {
                    let mut line = String::new();
                    line.append("ping from ");
                    line.append(packet.src.to_string().as_str());
                    assert(line@ =~= "ping from "@ + dotted(packet.src));
                    self.note(line);
                    let rest: [u8; 4] = [icmp.rest[0], icmp.rest[1], icmp.rest[2], icmp.rest[3]];
                    proof {
                        assert(rest@ =~= icmp.rest@);
                        lemma_word_sum_bound(icmp_message(0, 0, 0, rest@, icmp.payload@));
                    }
                    let reply: Vec<u8> = Icmp::build(0, 0, &rest, icmp.payload);
                    only(Ipv4Packet::build(self.addr, packet.src, PROTO_ICMP, reply.as_slice()))
                } else {
                    none()
                }
            },
            Err(e) => {
                self.dropped(e);
                none()
            },
        }
    }

    /// Whether datagrams to a port are echoed.
    fn echoes(&self, port: u16) -> (yes: bool)
        ensures
            yes == self@.udp_echo_ports.contains(port),
    {
        let mut i: usize = 0;
        while i < self.tables.udp_echo_ports.len()
            invariant
                i <= self.tables.udp_echo_ports.len(),
                forall|j: int| 0 <= j < i ==> self.tables.udp_echo_ports@[j] != port,
            decreases self.tables.udp_echo_ports.len() - i,
        {
            if self.tables.udp_echo_ports[i] == port {
                return true;
            }
            i = i + 1;
        }
        false
    }

    fn handle_udp(&mut self, packet: &Ipv4Packet) -> (out: Vec<Vec<u8>>)
        requires
            old(self).wf(),
            packet@.payload.len() <= 0xFFFF,
        ensures
            final(self).wf(),
            final(self)@ == old(self)@.after_udp(packet@),
            packet_views(out@) == old(self)@.udp_out(packet@),
    {
        match Udp::parse(packet.src, packet.dst, packet.payload) {
            Ok(udp) => {
                if self.echoes(udp.dst_port) {
                    proof {
                        lemma_word_sum_bound(
                            udp_summed(
                                self@.addr,
                                packet.src,
                                udp.dst_port,
                                udp.src_port,
                                udp.payload@,
                            ),
                        );
                    }
                    let reply: Vec<u8> = Udp::build(
                        self.addr,
                        packet.src,
                        udp.dst_port,
                        udp.src_port,
                        udp.payload,
                    );
                    only(Ipv4Packet::build(self.addr, packet.src, PROTO_UDP, reply.as_slice()))
                } else {
                    // port unreachable: ICMP type 3 code 3 with the header of the packet
                    let start: &[u8] = &packet.payload[0..8];
                    assert(start@ =~= packet.payload@.take(8));
                    let quoted: Vec<u8> = Ipv4Packet::build(
                        packet.src,
                        packet.dst,
                        PROTO_UDP,
                        start,
                    );
                    let rest: [u8; 4] = [0, 0, 0, 0];
                    proof {
                        assert(rest@ =~= seq![0, 0, 0, 0]);
                        lemma_word_sum_bound(icmp_message(3, 3, 0, rest@, quoted@));
                    }
                    let reply: Vec<u8> = Icmp::build(3, 3, &rest, quoted.as_slice());
                    self.note(closed_port(udp.dst_port));
                    only(Ipv4Packet::build(self.addr, packet.src, PROTO_ICMP, reply.as_slice()))
                }
            },
            Err(e) => {
                self.dropped(e);
                none()
            },
        }
    }

    fn handle_tcp(&mut self, packet: &Ipv4Packet, now_ms: u64) -> (out: Vec<Vec<u8>>)
        requires
            old(self).wf(),
            packet@.payload.len() <= 0xFFFF,
        ensures
            final(self).wf(),
            final(self)@ == old(self)@.after_tcp(packet@, now_ms),
            packet_views(out@) == old(self)@.tcp_out(packet@, now_ms),
    {
        proof {
            lemma_word_sum_bound(tcp_summed(packet.src, packet.dst, packet.payload@));
        }
        let seg = match TcpSegment::parse(packet.src, packet.dst, packet.payload) {
            Ok(s) => s,
            Err(e) => {
                self.dropped(e);
                return none();
            },
        };
        let key: u64 = key_of(packet.src, seg.src_port, seg.dst_port);
        if self.tables.connections.contains_key(&key) {
            proof {
                let c = self@.connections[key];
                assert(self@.connections.contains_key(key));
                assert(self@.connection_ok(key));
                lemma_connection_key(
                    packet.src,
                    seg.src_port,
                    seg.dst_port,
                    c.remote.0,
                    c.remote.1,
                    c.local.1,
                );
            }
            return self.deliver(key, &seg, now_ms);
        }
        let listener: Option<Listener> = match self.tables.listeners.get(&seg.dst_port) {
            Some(l) => Some(*l),
            None => None,
        };
        match listener {
            Some(l) => {
                if seg.has(SYN) && !seg.has(ACK) {
                    self.open(packet.src, &seg, l);
                    return self.deliver(key, &seg, now_ms);
                }
            },
            None => {},
        }
        if seg.has(RST) {
            return none();
        }
        only(self.reset(packet.src, &seg))
    }

    /// Opens a connection that waits for a segment.
    fn open(&mut self, src: Ipv4Addr, seg: &TcpSegment, l: Listener)
        requires
            old(self).wf(),
            old(self)@.listeners.contains_key(seg@.dst_port),
            old(self)@.listeners[seg@.dst_port] == l,
        ensures
            final(self)@.in_order(),
            final(self)@.waits_only_at(connection_key(src, seg@.src_port, seg@.dst_port)),
            final(self)@ == old(self)@.opened(src, seg@),
    {
        let ghost pre = self@;
        self.tables.iss = following(self.tables.iss);
        let conn: Connection = l.connection(
            (self.addr, seg.dst_port),
            (src, seg.src_port),
            self.tables.iss,
        );
        let ghost c = conn@;
        let key: u64 = key_of(src, seg.src_port, seg.dst_port);
        self.tables.connections.insert(key, conn);
        assert(self@.connections =~= pre.connections.insert(key, c));
        self.note(new_connection(src, seg.src_port, seg.dst_port));
        proof {
            lemma_opened_wf(pre, src, seg@);
        }
    }

    /// Hands a segment to the connection of its key.
    fn deliver(&mut self, key: u64, seg: &TcpSegment, now_ms: u64) -> (out: Vec<Vec<u8>>)
        requires
            old(self)@.in_order(),
            old(self)@.waits_only_at(key),
            old(self)@.connections.contains_key(key),
            old(self)@.connections[key].local.1 == seg@.dst_port,
            old(self)@.connections[key].state != State::Listen || seg@.has(SYN),
        ensures
            final(self).wf(),
            final(self)@ == old(self)@.delivered(key, seg@, now_ms),
            packet_views(out@) == old(self)@.delivered_out(key, seg@, now_ms),
    {
        let ghost pre = self@;
        let ghost c = pre.connections[key];
        let ghost l = pre.listeners[seg@.dst_port];
        assert(pre.connection_ok(key));
        let mut conn: Connection = self.tables.connections.remove(&key).unwrap();
        let outgoing: Vec<Outgoing> = serve(&mut conn, seg, now_ms, Ghost(l));
        let ghost after = conn@;
        let packets: Vec<Vec<u8>> = self.wrap_all(
            conn.remote(),
            conn.local().1,
            outgoing,
            Ghost(c),
        );
        if !conn.is_closed() {
            self.tables.connections.insert(key, conn);
        }
        proof {
            assert(self@.connections =~= pre.updated(key, after).connections);
            lemma_served_state(l, c, seg@, now_ms);
            lemma_updated_wf(pre, key, after);
        }
        packets
    }

    /// The reset that answers a segment to nobody.
    fn reset(&self, src: Ipv4Addr, seg: &TcpSegment) -> (packet: Vec<u8>)
        requires
            seg@.payload.len() <= 0xFFFF,
        ensures
            packet@ == self@.reset(src, seg@),
    {
        let mut seq: u32 = 0;
        let mut ack: u32 = 0;
        let mut flags: u8 = RST;
        if seg.has(ACK) {
            seq = seg.ack;
        } else {
            ack = advance(seg.seq, seg.payload.len() + 1);
            flags = RST | ACK;
        }
        let nothing: Vec<u8> = Vec::new();
        proof {
            assert(nothing@ =~= Seq::empty());
            let t = TcpView {
                src_port: seg.dst_port,
                dst_port: seg.src_port,
                seq,
                ack,
                flags,
                window: 0,
                payload: nothing@,
            };
            lemma_word_sum_bound(tcp_summed(self@.addr, src, tcp_segment(t, 0)));
        }
        let rst: Vec<u8> = TcpSegment::build(
            self.addr,
            src,
            seg.dst_port,
            seg.src_port,
            seq,
            ack,
            flags,
            0,
            nothing.as_slice(),
        );
        Ipv4Packet::build(self.addr, src, PROTO_TCP, rst.as_slice())
    }

    fn wrap(&self, remote: Ipv4Addr, remote_port: u16, local_port: u16, o: &Outgoing) -> (packet:
        Vec<u8>)
        requires
            o@.payload.len() <= MSS,
        ensures
            packet@ == self@.wrapped(remote, remote_port, local_port, o@),
    {
        proof {
            let t = TcpView {
                src_port: local_port,
                dst_port: remote_port,
                seq: o.seq,
                ack: o.ack,
                flags: o.flags,
                window: ANNOUNCED_WINDOW,
                payload: o.payload@,
            };
            lemma_word_sum_bound(tcp_summed(self@.addr, remote, tcp_segment(t, 0)));
        }
        let seg: Vec<u8> = TcpSegment::build(
            self.addr,
            remote,
            local_port,
            remote_port,
            o.seq,
            o.ack,
            o.flags,
            ANNOUNCED_WINDOW,
            o.payload.as_slice(),
        );
        Ipv4Packet::build(self.addr, remote, PROTO_TCP, seg.as_slice())
    }

    /// The packets that carry the outgoing segments of a connection.
    fn wrap_all(
        &self,
        remote: (Ipv4Addr, u16),
        local_port: u16,
        outgoing: Vec<Outgoing>,
        Ghost(c): Ghost<ConnView>,
    ) -> (packets: Vec<Vec<u8>>)
        requires
            c.remote == remote,
            c.local.1 == local_port,
            forall|i: int|
                0 <= i < outgoing@.len() ==> (#[trigger] out_views(outgoing@)[i]).payload.len()
                    <= MSS,
        ensures
            packet_views(packets@) == self@.wrapped_all(c, out_views(outgoing@)),
    {
        let mut packets: Vec<Vec<u8>> = Vec::new();
        let mut i: usize = 0;
        while i < outgoing.len()
            invariant
                i <= outgoing.len(),
                packets@.len() == i,
                c.remote == remote,
                c.local.1 == local_port,
                forall|j: int|
                    0 <= j < outgoing@.len() ==> (#[trigger] out_views(
                        outgoing@,
                    )[j]).payload.len() <= MSS,
                forall|j: int|
                    0 <= j < i ==> #[trigger] packets@[j]@ == self@.wrapped(
                        remote.0,
                        remote.1,
                        local_port,
                        outgoing@[j]@,
                    ),
            decreases outgoing.len() - i,
        {
            assert(out_views(outgoing@)[i as int] == outgoing@[i as int]@);
            let packet: Vec<u8> = self.wrap(remote.0, remote.1, local_port, &outgoing[i]);
            packets.push(packet);
            i = i + 1;
        }
        assert(packet_views(packets@) =~= self@.wrapped_all(c, out_views(outgoing@)));
        packets
    }

    /// The keys of the connections, in the order of the table.
    fn keys(&self) -> (keys: Vec<u64>)
        ensures
            self@.lists_connections(keys@),
    {
        let mut keys: Vec<u64> = Vec::new();
        let table = self.tables.connections.keys();
        let ghost all = table.remaining();
        for key in it: table
            invariant
                it.seq() == all,
                keys@.len() == it.index(),
                forall|i: int| 0 <= i < keys@.len() ==> keys@[i] == *all[i],
        {
            keys.push(*key);
        }
        proof {
            assert(keys@ =~= all.unref());
            assert forall|i: int, j: int| 0 <= i < j < keys@.len() implies keys@[i] != keys@[j] by {
                assert(all[i] != all[j]);
            }
            assert(self@.connections.dom() =~= self.tables.connections@.dom());
        }
        keys
    }

    /// Lets time pass for one connection.
    fn tick_one(&mut self, key: u64, now_ms: u64) -> (packets: Vec<Vec<u8>>)
        requires
            old(self).wf(),
            old(self)@.connections.contains_key(key),
        ensures
            final(self).wf(),
            final(self)@ == old(self)@.updated(
                key,
                old(self)@.connections[key].after_tick(now_ms),
            ),
            packet_views(packets@) == old(self)@.tick_packets(key, now_ms),
    {
        let ghost pre = self@;
        let ghost c = pre.connections[key];
        assert(pre.connection_ok(key));
        let mut conn: Connection = self.tables.connections.remove(&key).unwrap();
        let outgoing: Vec<Outgoing> = conn.tick(now_ms);
        let ghost after = conn@;
        proof {
            lemma_tick_out_small(c, now_ms);
        }
        let packets: Vec<Vec<u8>> = self.wrap_all(
            conn.remote(),
            conn.local().1,
            outgoing,
            Ghost(c),
        );
        if !conn.is_closed() {
            self.tables.connections.insert(key, conn);
        }
        proof {
            assert(self@.connections =~= pre.updated(key, after).connections);
            lemma_updated_wf(pre, key, after);
        }
        packets
    }

    /// Runs timers on every connection (call every ~100 ms).
    ///
    /// The packets of one connection come together; which connection comes
    /// first is up to the table.
    pub fn tick(&mut self, now_ms: u64) -> (packets: Vec<Vec<u8>>)
        requires
            old(self).wf(),
        ensures
            final(self).wf(),
            final(self)@ == old(self)@.after_tick(now_ms),
            exists|keys: Seq<u64>|
                {
                    &&& #[trigger] old(self)@.lists_connections(keys)
                    &&& packet_views(packets@) == old(self)@.tick_out(keys, now_ms)
                },
    {
        let ghost pre = self@;
        let mut packets: Vec<Vec<u8>> = Vec::new();
        let keys: Vec<u64> = self.keys();
        let mut i: usize = 0;
        proof {
            assert(keys@.take(0) =~= Seq::empty());
            assert(packet_views(packets@) =~= pre.tick_out(keys@.take(0), now_ms));
            lemma_ticked_none(pre, now_ms);
        }
        while i < keys.len()
            invariant
                i <= keys.len(),
                pre.lists_connections(keys@),
                self.wf(),
                self@ == ticked(pre, keys@.take(i as int), now_ms),
                packet_views(packets@) == pre.tick_out(keys@.take(i as int), now_ms),
            decreases keys.len() - i,
        {
            let key: u64 = keys[i];
            proof {
                assert(keys@.take(i + 1).drop_last() =~= keys@.take(i as int));
                lemma_ticked_one(pre, keys@, i as int, now_ms);
            }
            let ghost before = packet_views(packets@);
            let mut more: Vec<Vec<u8>> = self.tick_one(key, now_ms);
            let ghost added = packet_views(more@);
            packets.append(&mut more);
            assert(packet_views(packets@) =~= before + added);
            i = i + 1;
        }
        proof {
            assert(keys@.take(i as int) =~= keys@);
            lemma_ticked_all(pre, keys@, now_ms);
        }
        packets
    }
}

} // verus!
