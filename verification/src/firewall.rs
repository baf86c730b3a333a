//! A stateful packet filter between the mesh and the host.
//!
//! What the host sends is never held back, and it opens a flow. What comes in is let through if
//! its source is in an open network, if it belongs to a flow, if it asks for an open port, if it
//! is a ping and pings are allowed, or if it is an ICMPv6 error.
use vstd::prelude::*;
use crate::bytes::{be_value, bytes_eq, lemma_array_view_eq, lemma_pow256_values, read_be, take_array};
use crate::config::FirewallConfig;
use crate::nets::{cidr_of, in_net, parse_cidr, Cidr, Ip};
use crate::table::{
    distinct, find, get, has_key, lemma_find, lemma_put, put, KeyTable, TableKey,
};
use crate::traffic::elapsed;
use crate::wire::{array_of, lemma_array_of};

verus! {

pub const PROTO_TCP: u8 = 6;

pub const PROTO_UDP: u8 = 17;

pub const PROTO_ICMPV6: u8 = 58;

pub const HOP_BY_HOP: u8 = 0;

pub const ROUTING: u8 = 43;

pub const FRAGMENT: u8 = 44;

pub const DEST_OPTS: u8 = 60;

pub const TCP_FLAG_FIN: u8 = 0x01;

pub const TCP_FLAG_SYN: u8 = 0x02;

pub const TCP_FLAG_RST: u8 = 0x04;

pub const TCP_FLAG_ACK: u8 = 0x10;

pub const ICMP_ECHO_REQUEST: u8 = 128;

pub const ICMP_ECHO_REPLY: u8 = 129;

pub const TCP_SYN_TIMEOUT: u64 = 30_000_000_000;

pub const TCP_ESTABLISHED_TIMEOUT: u64 = 300_000_000_000;

pub const TCP_CLOSE_TIMEOUT: u64 = 10_000_000_000;

pub const UDP_TIMEOUT: u64 = 60_000_000_000;

pub const ICMP_TIMEOUT: u64 = 30_000_000_000;

/// How often flows that have run out are forgotten, in nanoseconds.
pub const GC_INTERVAL: u64 = 30_000_000_000;

/// A flow: a protocol between two ends.
#[derive(Clone, Copy, Debug, PartialEq, Eq)]
pub struct FlowKey {
    pub proto: u8,
    pub our_ip: [u8; 16],
    pub our_port: u16,
    pub peer_ip: [u8; 16],
    pub peer_port: u16,
}

impl TableKey for FlowKey {
    fn same(&self, other: &Self) -> (b: bool) {
        proof {
            lemma_array_view_eq(self.our_ip, other.our_ip);
            lemma_array_view_eq(self.peer_ip, other.peer_ip);
        }
        self.proto == other.proto && self.our_port == other.our_port && self.peer_port
            == other.peer_port && bytes_eq(self.our_ip.as_slice(), other.our_ip.as_slice())
            && bytes_eq(self.peer_ip.as_slice(), other.peer_ip.as_slice())
    }
}

/// How far a TCP connection has come.
#[derive(Clone, Copy, Debug, PartialEq, Eq, Structural)]
pub enum TcpState {
    SynSent,
    Established,
    FinSeen,
    Closed,
}

/// What is known of a flow: when a packet of it passed last, and the state of a connection.
#[derive(Clone, Copy, Debug, PartialEq, Eq)]
pub struct FlowEntry {
    pub last_seen: u64,
    pub tcp_state: Option<TcpState>,
}

/// How long a flow lasts without a packet.
pub open spec fn flow_timeout(e: FlowEntry, proto: u8) -> u64 {
    if proto == PROTO_TCP {
        match e.tcp_state {
            Some(TcpState::SynSent) => TCP_SYN_TIMEOUT,
            Some(TcpState::Established) => TCP_ESTABLISHED_TIMEOUT,
            Some(TcpState::FinSeen) => TCP_CLOSE_TIMEOUT,
            Some(TcpState::Closed) => TCP_CLOSE_TIMEOUT,
            None => TCP_SYN_TIMEOUT,
        }
    } else if proto == PROTO_ICMPV6 {
        ICMP_TIMEOUT
    } else {
        UDP_TIMEOUT
    }
}

impl FlowEntry {
    /// How long the flow lasts without a packet.
    pub fn timeout(&self, proto: u8) -> (r: u64)
        ensures
            r == flow_timeout(*self, proto),
    {
        if proto == PROTO_TCP {
            match self.tcp_state {
                Some(TcpState::SynSent) => TCP_SYN_TIMEOUT,
                Some(TcpState::Established) => TCP_ESTABLISHED_TIMEOUT,
                Some(TcpState::FinSeen) => TCP_CLOSE_TIMEOUT,
                Some(TcpState::Closed) => TCP_CLOSE_TIMEOUT,
                None => TCP_SYN_TIMEOUT,
            }
        } else if proto == PROTO_ICMPV6 {
            ICMP_TIMEOUT
        } else {
            UDP_TIMEOUT
        }
    }
}

/// Whether packets of a protocol are filtered.
pub open spec fn filtered(proto: u8) -> bool {
    proto == PROTO_TCP || proto == PROTO_UDP || proto == PROTO_ICMPV6
}

/// Whether packets of a protocol are filtered.
pub fn is_tracked(proto: u8) -> (r: bool)
    ensures
        r == filtered(proto),
{
    proto == PROTO_TCP || proto == PROTO_UDP || proto == PROTO_ICMPV6
}

/// The state of a connection after a packet with flags. A reset closes it and a FIN ends it,
/// whatever came before; neither an ended nor an established connection goes back; a packet that
/// acknowledges establishes a new one.
pub open spec fn tcp_after(prev: Option<TcpState>, flags: u8) -> TcpState {
    if flags & TCP_FLAG_RST != 0 {
        TcpState::Closed
    } else if flags & TCP_FLAG_FIN != 0 {
        TcpState::FinSeen
    } else {
        match prev {
            Some(TcpState::Closed) => TcpState::Closed,
            Some(TcpState::FinSeen) => TcpState::FinSeen,
            Some(TcpState::Established) => TcpState::Established,
            _ => if flags & TCP_FLAG_ACK != 0 {
                TcpState::Established
            } else {
                TcpState::SynSent
            },
        }
    }
}

/// The state of a connection after a packet with flags.
pub fn advance_tcp(prev: Option<TcpState>, flags: u8) -> (r: TcpState)
    ensures
        r == tcp_after(prev, flags),
{
    if (flags & TCP_FLAG_RST) != 0 {
        return TcpState::Closed;
    }
    if (flags & TCP_FLAG_FIN) != 0 {
        return TcpState::FinSeen;
    }
    match prev {
        Some(TcpState::Closed) => TcpState::Closed,
        Some(TcpState::FinSeen) => TcpState::FinSeen,
        Some(TcpState::Established) => TcpState::Established,
        _ => {
            if (flags & TCP_FLAG_ACK) != 0 {
                TcpState::Established
            } else {
                TcpState::SynSent
            }
        },
    }
}

/// What the filter reads of a packet.
#[derive(Clone, Copy, Debug, PartialEq, Eq)]
pub struct Parsed {
    pub proto: u8,
    pub src_ip: [u8; 16],
    pub dst_ip: [u8; 16],
    pub src_port: u16,
    pub dst_port: u16,
    pub tcp_flags: u8,
    pub control_type: u8,
}

/// Goes over the extension headers, at most `n` of them: gives the protocol and where its header
/// starts. There is none in a packet that ends in a header, nor in a fragment that is not the
/// first.
pub open spec fn walk(pkt: Seq<u8>, next: u8, off: int, n: nat) -> Option<(u8, int)>
    decreases n,
{
    if n == 0 {
        Some((next, off))
    } else if next == HOP_BY_HOP || next == ROUTING || next == DEST_OPTS {
        if off + 2 > pkt.len() || off + (pkt[off + 1] + 1) * 8 > pkt.len() {
            None
        } else {
            walk(pkt, pkt[off], off + (pkt[off + 1] + 1) * 8, (n - 1) as nat)
        }
    } else if next == FRAGMENT {
        if off + 8 > pkt.len() || be_value(pkt.subrange(off + 2, off + 4)) / 8 != 0 {
            None
        } else {
            walk(pkt, pkt[off], off + 8, (n - 1) as nat)
        }
    } else {
        Some((next, off))
    }
}

/// The number in two bytes.
pub open spec fn port_at(pkt: Seq<u8>, off: int) -> u16 {
    be_value(pkt.subrange(off, off + 2)) as u16
}

/// What the filter reads at the header of the protocol.
pub open spec fn transport(pkt: Seq<u8>, proto: u8, off: int) -> Option<Parsed> {
    let base = Parsed {
        proto,
        src_ip: array_of::<16>(pkt.subrange(8, 24)),
        dst_ip: array_of::<16>(pkt.subrange(24, 40)),
        src_port: 0,
        dst_port: 0,
        tcp_flags: 0,
        control_type: 0,
    };
    if proto == PROTO_TCP {
        if off + 14 > pkt.len() {
            None
        } else {
            Some(
                Parsed {
                    src_port: port_at(pkt, off),
                    dst_port: port_at(pkt, off + 2),
                    tcp_flags: pkt[off + 13],
                    ..base
                },
            )
        }
    } else if off + 8 > pkt.len() {
        None
    } else if proto == PROTO_UDP {
        Some(Parsed { src_port: port_at(pkt, off), dst_port: port_at(pkt, off + 2), ..base })
    } else if proto == PROTO_ICMPV6 {
        if pkt[off] == ICMP_ECHO_REQUEST || pkt[off] == ICMP_ECHO_REPLY {
            let id = port_at(pkt, off + 4);
            Some(Parsed { control_type: pkt[off], src_port: id, dst_port: id, ..base })
        } else {
            Some(Parsed { control_type: pkt[off], ..base })
        }
    } else {
        None
    }
}

/// What the filter reads of a packet. It reads nothing of a packet that is not IPv6, is cut
/// short, is a fragment but the first, or is of a protocol that is not filtered. Pings have
/// their identifier for a port on both sides.
pub open spec fn parsed(pkt: Seq<u8>) -> Option<Parsed> {
    if pkt.len() < 40 || pkt[0] / 16 != 6 {
        None
    } else {
        match walk(pkt, pkt[6], 40, 8) {
            None => None,
            Some((proto, off)) => if filtered(proto) {
                transport(pkt, proto, off)
            } else {
                None
            },
        }
    }
}

fn read_port(pkt: &[u8], off: usize) -> (r: u16)
    requires
        off + 2 <= pkt@.len(),
    ensures
        r == port_at(pkt@, off as int),
{
    proof {
        lemma_pow256_values();
    }
    read_be(pkt, off, 2) as u16
}

/// What the filter reads of a packet.
pub fn parse(pkt: &[u8]) -> (r: Option<Parsed>)
    ensures
        r == parsed(pkt@),
{
    if pkt.len() < 40 {
        return None;
    }
    if pkt[0] / 16 != 6 {
        return None;
    }
    let src_ip = take_array::<16>(pkt, 8);
    let dst_ip = take_array::<16>(pkt, 24);
    proof {
        lemma_array_of(src_ip);
        lemma_array_of(dst_ip);
        assert(src_ip@ =~= pkt@.subrange(8, 24));
        assert(dst_ip@ =~= pkt@.subrange(24, 40));
    }
    let mut next: u8 = pkt[6];
    let mut off: usize = 40;
    let mut n: usize = 8;
    let mut more: bool = true;
    while n > 0 && more
        invariant
            n <= 8,
            40 <= off <= pkt@.len(),
            more ==> walk(pkt@, pkt@[6], 40, 8) == walk(pkt@, next, off as int, n as nat),
            !more ==> walk(pkt@, pkt@[6], 40, 8) == Some((next, off as int)),
            pkt@.len() >= 40,
            pkt@[0] / 16 == 6,
        decreases n + if more { 1int } else { 0 },
    {
        if next == HOP_BY_HOP || next == ROUTING || next == DEST_OPTS {
            if pkt.len() - off < 2 {
                return None;
            }
            let len: usize = (pkt[off + 1] as usize + 1) * 8;
            if pkt.len() - off < len {
                return None;
            }
            next = pkt[off];
            off = off + len;
            n = n - 1;
        } else if next == FRAGMENT {
            if pkt.len() - off < 8 {
                return None;
            }
            if read_be(pkt, off + 2, 2) / 8 != 0 {
                return None;
            }
            next = pkt[off];
            off = off + 8;
            n = n - 1;
        } else {
            more = false;
        }
    }
    let proto: u8 = next;
    if !is_tracked(proto) {
        return None;
    }
    let mut p = Parsed { proto, src_ip, dst_ip, src_port: 0, dst_port: 0, tcp_flags: 0, control_type: 0 };
    if proto == PROTO_TCP {
        if pkt.len() - off < 14 {
            return None;
        }
        p.src_port = read_port(pkt, off);
        p.dst_port = read_port(pkt, off + 2);
        p.tcp_flags = pkt[off + 13];
        Some(p)
    } else if proto == PROTO_UDP {
        if pkt.len() - off < 8 {
            return None;
        }
        p.src_port = read_port(pkt, off);
        p.dst_port = read_port(pkt, off + 2);
        Some(p)
    } else {
        if pkt.len() - off < 8 {
            return None;
        }
        p.control_type = pkt[off];
        if p.control_type == ICMP_ECHO_REQUEST || p.control_type == ICMP_ECHO_REPLY {
            let id: u16 = read_port(pkt, off + 4);
            p.src_port = id;
            p.dst_port = id;
        }
        Some(p)
    }
}

/// The filter.
pub struct Firewall {
    pub enable: bool,
    pub open_tcp: Vec<u16>,
    pub open_udp: Vec<u16>,
    pub open_all_for: Vec<Cidr>,
    pub allow_icmp_echo: bool,
    pub table: KeyTable<FlowKey, FlowEntry>,
}

/// The view of the filter.
#[verifier::ext_equal]
pub struct FirewallView {
    pub enable: bool,
    pub open_tcp: Seq<u16>,
    pub open_udp: Seq<u16>,
    pub open_all_for: Seq<Cidr>,
    pub pings: bool,
    pub flows: Seq<(FlowKey, FlowEntry)>,
}

impl View for Firewall {
    type V = FirewallView;

    open spec fn view(&self) -> FirewallView {
        FirewallView {
            enable: self.enable,
            open_tcp: self.open_tcp@,
            open_udp: self.open_udp@,
            open_all_for: self.open_all_for@,
            pings: self.allow_icmp_echo,
            flows: self.table@,
        }
    }
}

/// What is wrong with a configuration: the entry of an open network that is none, or that is an
/// IPv4 network.
#[derive(Clone, Copy, Debug, PartialEq, Eq, Structural)]
pub enum FirewallError {
    InvalidEntry(usize),
    Ipv4Entry(usize),
}

/// The networks of the first `n` entries, if all are IPv6 networks; else the first that is not.
pub open spec fn open_nets(entries: Seq<String>, n: nat) -> Result<Seq<Cidr>, FirewallError>
    decreases n,
{
    if n == 0 {
        Ok(Seq::empty())
    } else {
        match open_nets(entries, (n - 1) as nat) {
            Err(e) => Err(e),
            Ok(s) => match cidr_of(entries[n - 1]@) {
                None => Err(FirewallError::InvalidEntry((n - 1) as usize)),
                Some(c) => match c.addr {
                    Ip::V4(_) => Err(FirewallError::Ipv4Entry((n - 1) as usize)),
                    Ip::V6(_) => Ok(s.push(c)),
                },
            },
        }
    }
}

proof fn lemma_open_nets_error(entries: Seq<String>, n: nat, m: nat)
    requires
        n <= m,
        open_nets(entries, n) is Err,
    ensures
        open_nets(entries, m) == open_nets(entries, n),
    decreases m,
{
    if n < m {
        lemma_open_nets_error(entries, n, (m - 1) as nat);
    }
}

fn parse_nets(entries: &Vec<String>) -> (r: Result<Vec<Cidr>, FirewallError>)
    ensures
        match r {
            Ok(nets) => open_nets(entries@, entries@.len()) == Ok::<Seq<Cidr>, FirewallError>(nets@)
                && forall|j: int| 0 <= j < nets@.len() ==> (#[trigger] nets@[j]).wf(),
            Err(e) => open_nets(entries@, entries@.len()) == Err::<Seq<Cidr>, FirewallError>(e),
        },
{
    let mut nets: Vec<Cidr> = Vec::new();
    let mut i: usize = 0;
    while i < entries.len()
        invariant
            i <= entries@.len(),
            open_nets(entries@, i as nat) == Ok::<Seq<Cidr>, FirewallError>(nets@),
            forall|j: int| 0 <= j < nets@.len() ==> (#[trigger] nets@[j]).wf(),
        decreases entries@.len() - i,
    {
        match parse_cidr(entries[i].as_str()) {
            None => {
                proof {
                    lemma_open_nets_error(entries@, (i + 1) as nat, entries@.len());
                }
                return Err(FirewallError::InvalidEntry(i));
            },
            Some(c) => match c.addr {
                Ip::V4(_) => {
                    proof {
                        lemma_open_nets_error(entries@, (i + 1) as nat, entries@.len());
                    }
                    return Err(FirewallError::Ipv4Entry(i));
                },
                Ip::V6(_) => {
                    nets.push(c);
                },
            },
        }
        i = i + 1;
    }
    Ok(nets)
}

/// The flow to which a packet that the host sends belongs.
pub open spec fn flow_out(p: Parsed) -> FlowKey {
    FlowKey {
        proto: p.proto,
        our_ip: p.src_ip,
        our_port: p.src_port,
        peer_ip: p.dst_ip,
        peer_port: p.dst_port,
    }
}

/// The flow to which a packet that comes in belongs.
pub open spec fn flow_in(p: Parsed) -> FlowKey {
    FlowKey {
        proto: p.proto,
        our_ip: p.dst_ip,
        our_port: p.dst_port,
        peer_ip: p.src_ip,
        peer_port: p.src_port,
    }
}

/// A flow after a packet of it.
pub open spec fn flow_touched(e: FlowEntry, p: Parsed, now: u64) -> FlowEntry {
    FlowEntry {
        last_seen: now,
        tcp_state: if p.proto == PROTO_TCP {
            Some(tcp_after(e.tcp_state, p.tcp_flags))
        } else {
            e.tcp_state
        },
    }
}

/// A flow that a packet opens.
pub open spec fn flow_opened(proto: u8, now: u64) -> FlowEntry {
    FlowEntry {
        last_seen: now,
        tcp_state: if proto == PROTO_TCP {
            Some(TcpState::SynSent)
        } else {
            None
        },
    }
}

/// The filter after a packet that the host sends: the flow is opened if there is none, and goes
/// on.
pub open spec fn outbound(f: FirewallView, pkt: Seq<u8>, now: u64) -> FirewallView {
    match parsed(pkt) {
        None => f,
        Some(p) => {
            let e = match get(f.flows, flow_out(p)) {
                Some(e) => e,
                None => flow_opened(p.proto, now),
            };
            FirewallView { flows: put(f.flows, flow_out(p), flow_touched(e, p, now)), ..f }
        },
    }
}

/// Whether the source is in an open network.
pub open spec fn source_open(f: FirewallView, p: Parsed) -> bool {
    exists|i: int| 0 <= i < f.open_all_for.len() && #[trigger] in_net(f.open_all_for[i], Ip::V6(p.src_ip))
}

/// Whether a packet is an ICMPv6 error, or a ping where pings are allowed.
pub open spec fn control_open(f: FirewallView, p: Parsed) -> bool {
    p.proto == PROTO_ICMPV6 && (1 <= p.control_type <= 4 || (p.control_type == ICMP_ECHO_REQUEST
        && f.pings))
}

/// Whether a packet asks for an open port: a TCP packet only as the first of a connection.
pub open spec fn port_open(f: FirewallView, p: Parsed) -> bool {
    if p.proto == PROTO_TCP {
        p.tcp_flags & TCP_FLAG_SYN != 0 && p.tcp_flags & TCP_FLAG_ACK == 0 && f.open_tcp.contains(
            p.dst_port,
        )
    } else {
        p.proto == PROTO_UDP && f.open_udp.contains(p.dst_port)
    }
}

/// The filter after a packet that comes in, and whether it is let through.
pub open spec fn inbound(f: FirewallView, pkt: Seq<u8>, now: u64) -> (FirewallView, bool) {
    match parsed(pkt) {
        None => (f, false),
        Some(p) => if source_open(f, p) || control_open(f, p) {
            (f, true)
        } else {
            match get(f.flows, flow_in(p)) {
                Some(e) => (
                    FirewallView { flows: put(f.flows, flow_in(p), flow_touched(e, p, now)), ..f },
                    true,
                ),
                None => if port_open(f, p) {
                    (
                        FirewallView {
                            flows: put(f.flows, flow_in(p), flow_opened(p.proto, now)),
                            ..f
                        },
                        true,
                    )
                } else {
                    (f, false)
                },
            }
        },
    }
}

/// The flows that have not run out.
pub open spec fn live_flows(e: Seq<(FlowKey, FlowEntry)>, now: u64) -> Seq<(FlowKey, FlowEntry)>
    decreases e.len(),
{
    if e.len() == 0 {
        Seq::empty()
    } else if flow_live(e.last(), now) {
        live_flows(e.drop_last(), now).push(e.last())
    } else {
        live_flows(e.drop_last(), now)
    }
}

/// Whether a flow has not run out.
pub open spec fn flow_live(f: (FlowKey, FlowEntry), now: u64) -> bool {
    elapsed(f.1.last_seen, now) < flow_timeout(f.1, f.0.proto)
}

fn has_port(ports: &Vec<u16>, port: u16) -> (r: bool)
    ensures
        r == ports@.contains(port),
{
    let mut i: usize = 0;
    while i < ports.len()
        invariant
            i <= ports@.len(),
            forall|j: int| 0 <= j < i ==> ports@[j] != port,
        decreases ports@.len() - i,
    {
        if ports[i] == port {
            assert(ports@[i as int] == port);
            return true;
        }
        i = i + 1;
    }
    false
}

impl Firewall {
    /// The invariant: no flow occurs twice, and open networks are networks.
    pub open spec fn wf(&self) -> bool {
        &&& self.table.wf()
        &&& forall|i: int| 0 <= i < self.open_all_for@.len() ==> (#[trigger] self.open_all_for@[i]).wf()
    }

    /// The filter of a configuration, without flows.
    pub fn new(cfg: &FirewallConfig) -> (r: Result<Self, FirewallError>)
        ensures
            match open_nets(cfg.open_all_for@, cfg.open_all_for@.len()) {
                Err(e) => r == Err::<Self, FirewallError>(e),
                Ok(nets) => r matches Ok(f) && f.wf() && f@ == (FirewallView {
                    enable: cfg.enable,
                    open_tcp: cfg.open_tcp@,
                    open_udp: cfg.open_udp@,
                    open_all_for: nets,
                    pings: cfg.allow_icmp_echo,
                    flows: Seq::empty(),
                }),
            },
    {
        let nets = match parse_nets(&cfg.open_all_for) {
            Ok(n) => n,
            Err(e) => {
                return Err(e);
            },
        };
        Ok(
            Firewall {
                enable: cfg.enable,
                open_tcp: copy_ports(&cfg.open_tcp),
                open_udp: copy_ports(&cfg.open_udp),
                open_all_for: nets,
                allow_icmp_echo: cfg.allow_icmp_echo,
                table: KeyTable::new(),
            },
        )
    }

    /// Whether packets are filtered at all.
    pub fn enabled(&self) -> (r: bool)
        ensures
            r == self@.enable,
    {
        self.enable
    }

    /// Forgets flows that have run out.
    pub fn gc(&mut self, now: u64)
        requires
            old(self).wf(),
        ensures
            final(self).wf(),
            final(self)@ == (FirewallView {
                flows: live_flows(old(self)@.flows, now),
                ..old(self)@
            }),
    {
        let ghost t0 = self.table@;
        let mut i: usize = 0;
        let ghost mut done: int = 0;
        assert(self.table@ =~= live_flows(t0.take(0), now) + t0.skip(0));
        while i < self.table.len()
            invariant
                0 <= done <= t0.len(),
                i == live_flows(t0.take(done), now).len(),
                self.table@ == live_flows(t0.take(done), now) + t0.skip(done),
                self.wf(),
                self@ == (FirewallView { flows: self.table@, ..old(self)@ }),
            decreases t0.len() - done,
        {
            proof {
                assert(done < t0.len());
                assert(t0.take(done + 1).drop_last() =~= t0.take(done));
                assert(self.table@[i as int] == t0[done]);
            }
            let key = self.table.key_at(i);
            let entry = *self.table.value_at(i);
            if now.saturating_sub(entry.last_seen) < entry.timeout(key.proto) {
                i = i + 1;
            } else {
                let _ = self.table.remove_at(i);
            }
            assert(self.table@ =~= live_flows(t0.take(done + 1), now) + t0.skip(done + 1));
            proof {
                done = done + 1;
            }
        }
        proof {
            assert(t0.take(done) =~= t0);
            assert(self.table@ =~= live_flows(t0, now));
        }
    }

    /// Takes note of a packet that the host sends.
    pub fn observe_outbound(&mut self, pkt: &[u8], now: u64)
        requires
            old(self).wf(),
        ensures
            final(self).wf(),
            final(self)@ == outbound(old(self)@, pkt@, now),
    {
        let p = match parse(pkt) {
            Some(p) => p,
            None => {
                return;
            },
        };
        let key = FlowKey {
            proto: p.proto,
            our_ip: p.src_ip,
            our_port: p.src_port,
            peer_ip: p.dst_ip,
            peer_port: p.dst_port,
        };
        let mut entry = match self.table.get(&key) {
            Some(e) => *e,
            None => FlowEntry {
                last_seen: now,
                tcp_state: if p.proto == PROTO_TCP {
                    Some(TcpState::SynSent)
                } else {
                    None
                },
            },
        };
        entry.last_seen = now;
        if p.proto == PROTO_TCP {
            entry.tcp_state = Some(advance_tcp(entry.tcp_state, p.tcp_flags));
        }
        self.table.insert(key, entry);
    }

    fn from_open_net(&self, p: &Parsed) -> (r: bool)
        requires
            self.wf(),
        ensures
            r == source_open(self@, *p),
    {
        let src = Ip::V6(p.src_ip);
        let mut i: usize = 0;
        while i < self.open_all_for.len()
            invariant
                i <= self.open_all_for@.len(),
                self.wf(),
                src == Ip::V6(p.src_ip),
                forall|j: int| 0 <= j < i ==> !in_net(#[trigger] self.open_all_for@[j], src),
            decreases self.open_all_for@.len() - i,
        {
            if self.open_all_for[i].contains(&src) {
                assert(in_net(self@.open_all_for[i as int], Ip::V6(p.src_ip)));
                return true;
            }
            i = i + 1;
        }
        false
    }

    /// Whether a packet that comes in is let through.
    pub fn check_inbound(&mut self, pkt: &[u8], now: u64) -> (r: bool)
        requires
            old(self).wf(),
        ensures
            final(self).wf(),
            (final(self)@, r) == inbound(old(self)@, pkt@, now),
    {
        let p = match parse(pkt) {
            Some(p) => p,
            None => {
                return false;
            },
        };
        if self.from_open_net(&p) {
            return true;
        }
        if p.proto == PROTO_ICMPV6 {
            if 1 <= p.control_type && p.control_type <= 4 {
                return true;
            }
            if p.control_type == ICMP_ECHO_REQUEST && self.allow_icmp_echo {
                return true;
            }
        }
        let key = FlowKey {
            proto: p.proto,
            our_ip: p.dst_ip,
            our_port: p.dst_port,
            peer_ip: p.src_ip,
            peer_port: p.src_port,
        };
        let found: Option<FlowEntry> = match self.table.get(&key) {
            Some(e) => Some(*e),
            None => None,
        };
        if let Some(e) = found {
            let mut entry = e;
            entry.last_seen = now;
            if p.proto == PROTO_TCP {
                entry.tcp_state = Some(advance_tcp(entry.tcp_state, p.tcp_flags));
            }
            self.table.insert(key, entry);
            return true;
        }
        if p.proto == PROTO_TCP {
            let is_syn = (p.tcp_flags & TCP_FLAG_SYN) != 0 && (p.tcp_flags & TCP_FLAG_ACK) == 0;
            if is_syn && has_port(&self.open_tcp, p.dst_port) {
                self.table.insert(
                    key,
                    FlowEntry { last_seen: now, tcp_state: Some(TcpState::SynSent) },
                );
                return true;
            }
        } else if p.proto == PROTO_UDP {
            if has_port(&self.open_udp, p.dst_port) {
                self.table.insert(key, FlowEntry { last_seen: now, tcp_state: None });
                return true;
            }
        }
        false
    }
}

fn copy_ports(ports: &Vec<u16>) -> (r: Vec<u16>)
    ensures
        r@ == ports@,
{
    let mut r: Vec<u16> = Vec::new();
    let mut i: usize = 0;
    while i < ports.len()
        invariant
            i <= ports@.len(),
            r@ == ports@.take(i as int),
        decreases ports@.len() - i,
    {
        r.push(ports[i]);
        i = i + 1;
        assert(r@ =~= ports@.take(i as int));
    }
    assert(r@ =~= ports@);
    r
}

// ---------------------------------------------------------------------------
// Laws
// ---------------------------------------------------------------------------

/// A packet is let through exactly when it can be read and comes from an open network, is an
/// ICMPv6 error or an allowed ping, belongs to a flow, or asks for an open port.
pub proof fn lemma_let_through_iff(f: FirewallView, pkt: Seq<u8>, now: u64)
    ensures
        inbound(f, pkt, now).1 == (parsed(pkt) is Some && {
            let p = parsed(pkt)->0;
            source_open(f, p) || control_open(f, p) || has_key(f.flows, flow_in(p)) || port_open(f, p)
        }),
{
}

/// A packet that is not let through changes nothing.
pub proof fn lemma_dropped_changes_nothing(f: FirewallView, pkt: Seq<u8>, now: u64)
    requires
        !inbound(f, pkt, now).1,
    ensures
        inbound(f, pkt, now).0 == f,
{
}

/// The answer to a packet that the host sent is let through.
pub proof fn lemma_answer_let_through(
    f: FirewallView,
    sent: Seq<u8>,
    answer: Seq<u8>,
    now: u64,
    later: u64,
)
    requires
        parsed(sent) is Some,
        parsed(answer) is Some,
        flow_in(parsed(answer)->0) == flow_out(parsed(sent)->0),
    ensures
        inbound(outbound(f, sent, now), answer, later).1,
{
    let p = parsed(sent)->0;
    let e = match get(f.flows, flow_out(p)) {
        Some(e) => e,
        None => flow_opened(p.proto, now),
    };
    lemma_put(f.flows, flow_out(p), flow_touched(e, p, now));
}

/// Once a packet to an open port was let through, so is every further packet of its flow.
pub proof fn lemma_flow_goes_on(
    f: FirewallView,
    first: Seq<u8>,
    next: Seq<u8>,
    now: u64,
    later: u64,
)
    requires
        parsed(first) is Some,
        parsed(next) is Some,
        flow_in(parsed(next)->0) == flow_in(parsed(first)->0),
        port_open(f, parsed(first)->0),
    ensures
        inbound(inbound(f, first, now).0, next, later).1,
{
    let p = parsed(first)->0;
    let q = parsed(next)->0;
    lemma_put(f.flows, flow_in(p), flow_opened(p.proto, now));
    if has_key(f.flows, flow_in(p)) {
        lemma_find(f.flows, flow_in(p));
        lemma_put(
            f.flows,
            flow_in(p),
            flow_touched(get(f.flows, flow_in(p))->0, p, now),
        );
    }
    assert(source_open(inbound(f, first, now).0, q) == source_open(f, q));
    assert(p.src_ip == q.src_ip);
}

/// No packet makes the filter forget a flow.
pub proof fn lemma_flows_stay(f: FirewallView, pkt: Seq<u8>, now: u64, k: FlowKey)
    requires
        has_key(f.flows, k),
    ensures
        has_key(inbound(f, pkt, now).0.flows, k),
        has_key(outbound(f, pkt, now).flows, k),
{
    if parsed(pkt) is Some {
        let p = parsed(pkt)->0;
        assert forall|j: FlowKey, e: FlowEntry| has_key(#[trigger] put(f.flows, j, e), k) by {
            lemma_put(f.flows, j, e);
            lemma_find(f.flows, k);
            assert(get(put(f.flows, j, e), k) is Some);
        }
    }
}

/// Exactly the flows that have not run out are kept.
pub proof fn lemma_gc_exact(e: Seq<(FlowKey, FlowEntry)>, now: u64)
    requires
        distinct(e),
    ensures
        distinct(live_flows(e, now)),
        forall|k: FlowKey| #[trigger]
            get(live_flows(e, now), k) == (match get(e, k) {
                Some(v) => if flow_live((k, v), now) {
                    Some(v)
                } else {
                    None
                },
                None => None,
            }),
    decreases e.len(),
{
    let r = live_flows(e, now);
    if e.len() > 0 {
        let d = e.drop_last();
        let (lk, lv) = e.last();
        assert(distinct(d));
        lemma_gc_exact(d, now);
        let rd = live_flows(d, now);
        assert(!has_key(d, lk)) by {
            lemma_find(d, lk);
            if has_key(d, lk) {
                assert(e[find(d, lk)].0 != e[e.len() - 1].0);
            }
        }
        assert(get(rd, lk) is None);
        assert(e =~= put(d, lk, lv));
        lemma_put(d, lk, lv);
        if flow_live((lk, lv), now) {
            assert(r =~= put(rd, lk, lv));
            lemma_put(rd, lk, lv);
        }
        assert forall|k: FlowKey| #[trigger]
            get(r, k) == (match get(e, k) {
                Some(v) => if flow_live((k, v), now) {
                    Some(v)
                } else {
                    None
                },
                None => None,
            }) by {
            assert(get(put(d, lk, lv), k) == (if k == lk {
                Some(lv)
            } else {
                get(d, k)
            }));
            assert(get(rd, k) == get(rd, k));
        }
    }
}

/// A connection never goes back: one that has ended stays ended, and one that is established is
/// not new again.
pub proof fn lemma_tcp_only_forward(prev: TcpState, flags: u8)
    ensures
        prev == TcpState::Established ==> tcp_after(Some(prev), flags) != TcpState::SynSent,
        (prev == TcpState::FinSeen || prev == TcpState::Closed) ==> tcp_after(Some(prev), flags)
            == TcpState::FinSeen || tcp_after(Some(prev), flags) == TcpState::Closed,
{
}

/// What is let through, spelled out: a packet from any of the open networks; an ICMPv6 error, that
/// is a type from one to four; a ping, type 128, where pings are allowed; a packet back along a
/// flow; a TCP packet with SYN and without ACK to any of the open TCP ports; and a UDP packet to
/// any of the open UDP ports. Nothing else is.
pub proof fn lemma_what_is_let_through(f: FirewallView, pkt: Seq<u8>, now: u64)
    ensures
        inbound(f, pkt, now).1 <==> (parsed(pkt) matches Some(p) && {
            ||| exists|i: int|
                0 <= i < f.open_all_for.len() && #[trigger] in_net(
                    f.open_all_for[i],
                    Ip::V6(p.src_ip),
                )
            ||| p.proto == 58 && 1 <= p.control_type <= 4
            ||| p.proto == 58 && p.control_type == 128 && f.pings
            ||| exists|k: FlowKey| #[trigger]
                has_key(f.flows, k) && k.proto == p.proto && k.our_ip == p.dst_ip && k.our_port
                    == p.dst_port && k.peer_ip == p.src_ip && k.peer_port == p.src_port
            ||| p.proto == 6 && p.tcp_flags & 2 != 0 && p.tcp_flags & 16 == 0 && exists|i: int|
                0 <= i < f.open_tcp.len() && #[trigger] f.open_tcp[i] == p.dst_port
            ||| p.proto == 17 && exists|i: int|
                0 <= i < f.open_udp.len() && #[trigger] f.open_udp[i] == p.dst_port
        }),
{
    if let Some(p) = parsed(pkt) {
        let k = FlowKey {
            proto: p.proto,
            our_ip: p.dst_ip,
            our_port: p.dst_port,
            peer_ip: p.src_ip,
            peer_port: p.src_port,
        };
        assert(has_key(f.flows, k) == has_key(f.flows, flow_in(p)));
        assert(get(f.flows, k) is Some == has_key(f.flows, k));
    }
}

/// Every port of the list of TCP ports is open: the first packet of a connection to it is let
/// through, wherever it stands in the list and whatever flows there are.
pub proof fn lemma_every_tcp_port_is_open(f: FirewallView, pkt: Seq<u8>, now: u64, i: int)
    requires
        0 <= i < f.open_tcp.len(),
        parsed(pkt) matches Some(p) && p.proto == 6 && p.tcp_flags & 2 != 0 && p.tcp_flags & 16 == 0
            && p.dst_port == f.open_tcp[i],
    ensures
        inbound(f, pkt, now).1,
{
    lemma_what_is_let_through(f, pkt, now);
}

/// Every port of the list of UDP ports is open.
pub proof fn lemma_every_udp_port_is_open(f: FirewallView, pkt: Seq<u8>, now: u64, i: int)
    requires
        0 <= i < f.open_udp.len(),
        parsed(pkt) matches Some(p) && p.proto == 17 && p.dst_port == f.open_udp[i],
    ensures
        inbound(f, pkt, now).1,
{
    lemma_what_is_let_through(f, pkt, now);
}

/// What comes from any of the open networks is let through, whatever it is.
pub proof fn lemma_every_open_network_is_open(f: FirewallView, pkt: Seq<u8>, now: u64, i: int)
    requires
        0 <= i < f.open_all_for.len(),
        parsed(pkt) matches Some(p) && in_net(f.open_all_for[i], Ip::V6(p.src_ip)),
    ensures
        inbound(f, pkt, now).1,
{
    lemma_what_is_let_through(f, pkt, now);
}

/// The flow of a packet that the host sends is there afterwards, with the present time, and no other
/// flow changes. A packet that comes in touches no flow but its own either: where that is there, it
/// goes on at the present time; where it is let through for an open port, it is there afterwards.
/// The ports, networks and switches of the filter never change.
pub proof fn lemma_packets_touch_their_own_flow(f: FirewallView, pkt: Seq<u8>, now: u64, k: FlowKey)
    requires
        parsed(pkt) is Some,
    ensures
        ({
            let p = parsed(pkt)->0;
            let out = outbound(f, pkt, now);
            let (end, through) = inbound(f, pkt, now);
            let sent = k.proto == p.proto && k.our_ip == p.src_ip && k.our_port == p.src_port
                && k.peer_ip == p.dst_ip && k.peer_port == p.dst_port;
            let came = k.proto == p.proto && k.our_ip == p.dst_ip && k.our_port == p.dst_port
                && k.peer_ip == p.src_ip && k.peer_port == p.src_port;
            let plain = source_open(f, p) || control_open(f, p);
            &&& out == (FirewallView { flows: out.flows, ..f })
            &&& end == (FirewallView { flows: end.flows, ..f })
            &&& sent ==> (get(out.flows, k) matches Some(e) && e.last_seen == now)
            &&& !sent ==> get(out.flows, k) == get(f.flows, k)
            &&& !came || plain ==> get(end.flows, k) == get(f.flows, k)
            &&& came && !plain && through ==> (get(end.flows, k) matches Some(e) && e.last_seen
                == now)
            &&& came && !plain && !has_key(f.flows, k) && through && p.proto == 6 ==> get(end.flows, k)->0.tcp_state
                == Some(TcpState::SynSent)
            &&& came && !plain && has_key(f.flows, k) && p.proto == 6 ==> get(end.flows, k)->0.tcp_state
                == Some(tcp_after(get(f.flows, k)->0.tcp_state, p.tcp_flags))
            &&& sent && p.proto == 6 ==> get(out.flows, k)->0.tcp_state == Some(
                tcp_after(
                    match get(f.flows, k) {
                        Some(e) => e.tcp_state,
                        None => None,
                    },
                    p.tcp_flags,
                ),
            )
        }),
{
    let p = parsed(pkt)->0;
    assert forall|j: FlowKey, e: FlowEntry| #[trigger]
        get(put(f.flows, j, e), k) == (if k == j { Some(e) } else { get(f.flows, k) }) by {
        lemma_put(f.flows, j, e);
    }
}

/// A reset closes a connection and a FIN ends it, whatever came before. Otherwise one that was ended
/// or closed stays so, and one that was established too; a new one is established by the first
/// packet that acknowledges.
pub proof fn lemma_tcp_states(prev: Option<TcpState>, flags: u8)
    ensures
        flags & 4 != 0 ==> tcp_after(prev, flags) == TcpState::Closed,
        flags & 4 == 0 && flags & 1 != 0 ==> tcp_after(prev, flags) == TcpState::FinSeen,
        flags & 4 == 0 && flags & 1 == 0 ==> {
            &&& (prev matches Some(s) && s != TcpState::SynSent) ==> Some(tcp_after(prev, flags)) == prev
            &&& !(prev matches Some(s) && s != TcpState::SynSent) ==> tcp_after(prev, flags) == (
            if flags & 16 != 0 {
                TcpState::Established
            } else {
                TcpState::SynSent
            })
        },
{
}

/// A flow lives for so many seconds after its last packet: an established connection for five
/// minutes, a new one for thirty seconds, one that has ended for ten; pings for thirty seconds,
/// and everything else for a minute.
pub proof fn lemma_how_long_flows_live(k: FlowKey, e: FlowEntry, now: u64)
    ensures
        ({
            let seconds: int = if k.proto == 6 {
                match e.tcp_state {
                    Some(TcpState::Established) => 300,
                    Some(TcpState::FinSeen) => 10,
                    Some(TcpState::Closed) => 10,
                    _ => 30,
                }
            } else if k.proto == 58 {
                30
            } else {
                60
            };
            flow_live((k, e), now) <==> now < e.last_seen + seconds * 1_000_000_000
        }),
{
}

/// The number in two bytes, the high one first.
spec fn number(hi: u8, lo: u8) -> int {
    256 * hi + lo
}

proof fn lemma_be_two(pkt: Seq<u8>, off: int)
    requires
        0 <= off,
        off + 2 <= pkt.len(),
    ensures
        be_value(pkt.subrange(off, off + 2)) == number(pkt[off], pkt[off + 1]),
{
    let s = pkt.subrange(off, off + 2);
    assert(s.len() == 2 && s[0] == pkt[off] && s[1] == pkt[off + 1]);
    lemma_pow256_values();
    reveal_with_fuel(be_value, 3);
    assert(s.drop_last() =~= seq![s[0]]);
    assert(s.drop_last().drop_last() =~= Seq::empty());
    assert(s.drop_first() =~= seq![s[1]]);
    assert(s.drop_first().drop_first() =~= Seq::empty());
}

proof fn lemma_port_at(pkt: Seq<u8>, off: int)
    requires
        0 <= off,
        off + 2 <= pkt.len(),
    ensures
        port_at(pkt, off) == number(pkt[off], pkt[off + 1]),
{
    lemma_be_two(pkt, off);
}

/// A packet without extension headers: the addresses, ports, flags and types are read where the
/// protocols have them.
pub proof fn lemma_what_is_read(pkt: Seq<u8>)
    requires
        pkt.len() >= 54,
        pkt[0] / 16 == 6,
        pkt[6] == 6 || pkt[6] == 17 || pkt[6] == 58,
    ensures
        parsed(pkt) matches Some(p) && {
            &&& p.proto == pkt[6]
            &&& p.src_ip@ == pkt.subrange(8, 24)
            &&& p.dst_ip@ == pkt.subrange(24, 40)
            &&& pkt[6] == 6 || pkt[6] == 17 ==> p.src_port == 256 * pkt[40] + pkt[41] && p.dst_port
                == 256 * pkt[42] + pkt[43]
            &&& pkt[6] == 6 ==> p.tcp_flags == pkt[53]
            &&& pkt[6] == 58 ==> p.control_type == pkt[40]
            &&& pkt[6] == 58 && (pkt[40] == 128 || pkt[40] == 129) ==> p.src_port == 256 * pkt[44]
                + pkt[45] && p.dst_port == p.src_port
        },
{
    assert(walk(pkt, pkt[6], 40, 8) == Some((pkt[6], 40int)));
    lemma_port_at(pkt, 40);
    lemma_port_at(pkt, 42);
    lemma_port_at(pkt, 44);
    crate::wire::lemma_array_holds::<16>(pkt.subrange(8, 24));
    crate::wire::lemma_array_holds::<16>(pkt.subrange(24, 40));
}

/// Nothing is read of what is no IPv6 packet or is shorter than its header, of a fragment but the
/// first, nor of a protocol that is neither TCP nor UDP nor ICMPv6. So none of that is let
/// through.
pub proof fn lemma_what_is_not_read(f: FirewallView, pkt: Seq<u8>, now: u64)
    requires
        pkt.len() < 40 || pkt[0] / 16 != 6 || (pkt[6] == 44 && (pkt.len() < 48 || 256 * pkt[42]
            + pkt[43] >= 8)) || (pkt[6] != 6 && pkt[6] != 17 && pkt[6] != 58 && pkt[6] != 0 && pkt[6]
            != 43 && pkt[6] != 44 && pkt[6] != 60),
    ensures
        parsed(pkt) is None,
        !inbound(f, pkt, now).1,
        outbound(f, pkt, now) == f,
{
    if pkt.len() >= 48 {
        lemma_port_at(pkt, 42);
        lemma_be_two(pkt, 42);
    }
}

/// A packet without its first extension header, which ends at `end`: the type of the next header
/// takes the place of its own.
pub open spec fn unwrapped(pkt: Seq<u8>, end: int) -> Seq<u8> {
    pkt.take(40).update(6, pkt[40]) + pkt.skip(end)
}

proof fn lemma_walk_shifted(pkt: Seq<u8>, cut: Seq<u8>, next: u8, off: int, by: int, n: nat)
    requires
        by >= 0,
        cut.len() == pkt.len() - by,
        40 <= off - by <= cut.len(),
        cut.skip(40) == pkt.skip(40 + by),
        walk(pkt, next, off, n) matches Some((proto, at)) && filtered(proto),
    ensures
        walk(pkt, next, off, n) matches Some((proto, at)) && off <= at <= pkt.len() && walk(
            cut,
            next,
            off - by,
            n + 1,
        ) == Some((proto, at - by)),
    decreases n,
{
    assert forall|i: int| 40 + by <= i < pkt.len() implies #[trigger] pkt[i] == cut[i - by] by {
        let j = i - by - 40;
        assert(cut.skip(40)[j] == cut[40 + j]);
        assert(pkt.skip(40 + by)[j] == pkt[40 + by + j]);
    }
    if n > 0 {
        if next == HOP_BY_HOP || next == ROUTING || next == DEST_OPTS {
            let len = (pkt[off + 1] + 1) * 8;
            lemma_walk_shifted(pkt, cut, pkt[off], off + len, by, (n - 1) as nat);
        } else if next == FRAGMENT {
            assert(pkt.subrange(off + 2, off + 4) =~= cut.subrange(off - by + 2, off - by + 4));
            lemma_walk_shifted(pkt, cut, pkt[off], off + 8, by, (n - 1) as nat);
        }
    }
}

proof fn lemma_transport_shifted(pkt: Seq<u8>, cut: Seq<u8>, proto: u8, off: int, by: int)
    requires
        by >= 0,
        off >= 40 + by,
        cut.len() == pkt.len() - by,
        cut.len() >= 40,
        forall|i: int| 8 <= i < 40 ==> #[trigger] pkt[i] == cut[i],
        forall|i: int| off <= i < pkt.len() ==> #[trigger] pkt[i] == cut[i - by],
    ensures
        transport(cut, proto, off - by) == transport(pkt, proto, off),
{
    assert(cut.subrange(8, 24) =~= pkt.subrange(8, 24));
    assert(cut.subrange(24, 40) =~= pkt.subrange(24, 40));
    if off + 2 <= pkt.len() {
        assert(cut.subrange(off - by, off - by + 2) =~= pkt.subrange(off, off + 2));
    }
    if off + 4 <= pkt.len() {
        assert(cut.subrange(off - by + 2, off - by + 2 + 2) =~= pkt.subrange(off + 2, off + 2 + 2));
    }
    if off + 6 <= pkt.len() {
        assert(cut.subrange(off - by + 4, off - by + 4 + 2) =~= pkt.subrange(off + 4, off + 4 + 2));
    }
    if off + 14 <= pkt.len() {
        assert(pkt[off + 13] == cut[off + 13 - by]);
    }
    if off < pkt.len() {
        assert(pkt[off] == cut[off - by]);
    }
}

/// Extension headers are skipped: a packet that is read with its first one, which is hop-by-hop
/// options, routing, destination options or the first fragment's, is read the same without it.
pub proof fn lemma_extension_headers_are_skipped(pkt: Seq<u8>)
    requires
        parsed(pkt) is Some,
        pkt[6] == 0 || pkt[6] == 43 || pkt[6] == 60 || pkt[6] == 44,
    ensures
        pkt[6] != 44 ==> parsed(unwrapped(pkt, 40 + 8 * (pkt[41] + 1))) == parsed(pkt),
        pkt[6] == 44 ==> parsed(unwrapped(pkt, 48)) == parsed(pkt),
{
    let end = if pkt[6] == 44 {
        48
    } else {
        40 + 8 * (pkt[41] + 1)
    };
    let cut = unwrapped(pkt, end);
    let by = end - 40;
    let (proto, off) = walk(pkt, pkt[6], 40, 8)->0;
    assert(walk(pkt, pkt[6], 40, 8) == walk(pkt, pkt[40], end, 7));
    assert(cut.skip(40) =~= pkt.skip(end));
    lemma_walk_shifted(pkt, cut, pkt[40], end, by, 7);
    assert forall|i: int| 8 <= i < 40 implies #[trigger] pkt[i] == cut[i] by {}
    assert forall|i: int| end <= i < pkt.len() implies #[trigger] pkt[i] == cut[i - by] by {}
    lemma_transport_shifted(pkt, cut, proto, off, by);
}

/// The open networks are those of the entries, each in its place; where one is not an IPv6 network,
/// the first such entry is told.
pub proof fn lemma_open_nets_are_the_entries(entries: Seq<String>, n: nat)
    requires
        n <= entries.len(),
    ensures
        match open_nets(entries, n) {
            Ok(s) => s.len() == n && forall|i: int|
                0 <= i < n ==> cidr_of((#[trigger] entries[i])@) == Some(s[i]) && s[i].addr is V6,
            Err(e) => exists|i: int|
                0 <= i < n && {
                    let c = cidr_of((#[trigger] entries[i])@);
                    &&& e == (if c is None {
                        FirewallError::InvalidEntry(i as usize)
                    } else {
                        FirewallError::Ipv4Entry(i as usize)
                    })
                    &&& c matches Some(c) ==> c.addr is V4
                    &&& forall|j: int|
                        0 <= j < i ==> (cidr_of((#[trigger] entries[j])@) matches Some(c) && c.addr is V6)
                },
        },
    decreases n,
{
    if n > 0 {
        let m = (n - 1) as nat;
        lemma_open_nets_are_the_entries(entries, m);
        match open_nets(entries, m) {
            Err(e) => {
                let i = choose|i: int|
                    0 <= i < m && {
                        let c = cidr_of((#[trigger] entries[i])@);
                        &&& e == (if c is None {
                            FirewallError::InvalidEntry(i as usize)
                        } else {
                            FirewallError::Ipv4Entry(i as usize)
                        })
                        &&& c matches Some(c) ==> c.addr is V4
                        &&& forall|j: int|
                            0 <= j < i ==> (cidr_of((#[trigger] entries[j])@) matches Some(c)
                                && c.addr is V6)
                    };
                assert(0 <= i < n && open_nets(entries, n) == Err::<Seq<Cidr>, FirewallError>(e));
                let c = cidr_of(entries[i]@);
            },
            Ok(s) => {
                let c = cidr_of(entries[m as int]@);
                assert forall|j: int| 0 <= j < m implies (cidr_of((#[trigger] entries[j])@) matches Some(
                    c,
                ) && c.addr is V6) by {
                    assert(cidr_of(entries[j]@) == Some(s[j]));
                }
            },
        }
    }
}

/// Whether an extension header at `off` is whole and leads to the header `kind` at `end`: one with
/// options is as long as it says, in units of eight bytes beyond the first, and a fragment's is eight
/// bytes long and that of the first fragment.
pub open spec fn leads_to(pkt: Seq<u8>, next: u8, off: int, kind: u8, end: int) -> bool {
    &&& next == 0 || next == 43 || next == 44 || next == 60
    &&& off + 2 <= pkt.len()
    &&& kind == pkt[off]
    &&& end <= pkt.len()
    &&& next == 44 ==> end == off + 8 && 256 * pkt[off + 2] + pkt[off + 3] < 8
    &&& next != 44 ==> end == off + 8 * (pkt[off + 1] + 1)
}

/// Whether headers follow each other in a packet, from the first behind the fixed one.
pub open spec fn are_headers(pkt: Seq<u8>, kinds: Seq<u8>, places: Seq<int>) -> bool {
    &&& pkt.len() >= 40
    &&& pkt[0] / 16 == 6
    &&& kinds.len() == places.len()
    &&& kinds.len() > 0
    &&& kinds[0] == pkt[6]
    &&& places[0] == 40
    &&& forall|i: int|
        0 <= i < kinds.len() - 1 ==> leads_to(
            pkt,
            #[trigger] kinds[i],
            places[i],
            kinds[i + 1],
            places[i + 1],
        )
}

proof fn lemma_walk_along(pkt: Seq<u8>, kinds: Seq<u8>, places: Seq<int>, i: int, m: int)
    requires
        are_headers(pkt, kinds, places),
        0 <= i <= m < kinds.len(),
        m <= 8,
        m == 8 || (kinds[m] != 0 && kinds[m] != 43 && kinds[m] != 44 && kinds[m] != 60),
        places[i] >= 40,
    ensures
        walk(pkt, kinds[i], places[i], (8 - i) as nat) == Some((kinds[m], places[m])),
        places[m] >= 40,
    decreases m - i,
{
    if i < m {
        assert(leads_to(pkt, kinds[i], places[i], kinds[i + 1], places[i + 1]));
        if kinds[i] == 44 {
            lemma_be_two(pkt, places[i] + 2);
        }
        lemma_walk_along(pkt, kinds, places, i + 1, m);
    }
}

/// Up to eight extension headers are followed, each whole: what is behind them is read as if it stood
/// behind the fixed header. A packet with more of them is not read.
pub proof fn lemma_headers_are_followed(pkt: Seq<u8>, kinds: Seq<u8>, places: Seq<int>)
    requires
        are_headers(pkt, kinds, places),
    ensures
        ({
            let last = kinds.last();
            let off = places.last();
            &&& kinds.len() <= 9 && (last == 6 || last == 17 || last == 58) && off + 14 <= pkt.len()
                ==> (parsed(pkt) matches Some(p) && {
                &&& p.proto == last
                &&& p.src_ip@ == pkt.subrange(8, 24)
                &&& p.dst_ip@ == pkt.subrange(24, 40)
                &&& last != 58 ==> p.src_port == 256 * pkt[off] + pkt[off + 1] && p.dst_port == 256
                    * pkt[off + 2] + pkt[off + 3]
                &&& last == 6 ==> p.tcp_flags == pkt[off + 13]
                &&& last == 58 ==> p.control_type == pkt[off]
            })
            &&& kinds.len() <= 9 && last == 6 && off + 14 > pkt.len() ==> parsed(pkt) is None
            &&& kinds.len() <= 9 && (last == 17 || last == 58) && off + 8 > pkt.len() ==> parsed(
                pkt,
            ) is None
            &&& kinds.len() > 9 ==> parsed(pkt) is None
        }),
{
    let n = kinds.len() - 1;
    let (last, off) = (kinds.last(), places.last());
    if n > 8 {
        assert(leads_to(pkt, kinds[8], places[8], kinds[9], places[9]));
        lemma_walk_along(pkt, kinds, places, 0, 8);
    } else if last == 6 || last == 17 || last == 58 {
        lemma_walk_along(pkt, kinds, places, 0, n);
        if off + 14 <= pkt.len() {
            lemma_port_at(pkt, off);
            lemma_port_at(pkt, off + 2);
            lemma_port_at(pkt, off + 4);
            crate::wire::lemma_array_holds::<16>(pkt.subrange(8, 24));
            crate::wire::lemma_array_holds::<16>(pkt.subrange(24, 40));
        }
    }
}

/// A packet whose extension header is cut off is not read.
pub proof fn lemma_cut_off_header_is_not_read(pkt: Seq<u8>)
    requires
        pkt.len() >= 40,
        pkt[6] == 0 || pkt[6] == 43 || pkt[6] == 60,
        pkt.len() < 42 || 40 + 8 * (pkt[41] + 1) > pkt.len(),
    ensures
        parsed(pkt) is None,
{
}

} // verus!
