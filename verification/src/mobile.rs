//! A node inside an app: its configuration, and the tunnel that the system hands it.
use vstd::prelude::*;
use vstd::string::StringExecFns;
use crate::boxes::random_secret;
use crate::config::{self, secret_of, KeyError};
use crate::crypto::ed25519_public;
use crate::nets::{cidr_of, cidr_shown, parse_cidr, show_cidr, Cidr};
use crate::peering::texts_view;
use crate::texts::{decimal_text, hex_text, number_text};
use crate::version::{PROTOCOL_VERSION_MAJOR, PROTOCOL_VERSION_MINOR};

verus! {

/// What can go wrong for an app.
#[derive(Debug)]
pub enum YggdrasilError {
    Config(String),
    Runtime(String),
    Io(String),
}

/// The discovery of neighbours on network interfaces, as an app gives it.
#[derive(Debug)]
pub struct MulticastInterfaceConfig {
    pub filter: String,
    pub beacon: bool,
    pub listen: bool,
    pub port: u16,
    pub priority: u8,
    pub password: String,
}

/// The networks behind a node.
#[derive(Debug)]
pub struct CkrRemoteSubnet {
    pub public_key: String,
    pub cidrs: Vec<String>,
}

/// The routing of networks outside the mesh, as an app gives it.
#[derive(Debug)]
pub struct TunnelRoutingConfig {
    pub enable: bool,
    pub ipv4_address: String,
    pub remote_subnets: Vec<CkrRemoteSubnet>,
}

/// The configuration of a node, as an app gives it.
#[derive(Debug)]
pub struct YggdrasilConfig {
    pub private_key: String,
    pub peers: Vec<String>,
    pub listen: Vec<String>,
    pub if_mtu: u64,
    pub multicast_interfaces: Vec<MulticastInterfaceConfig>,
    pub node_info_name: String,
    pub tunnel_routing: TunnelRoutingConfig,
}

/// What an app shows of a node.
#[derive(Debug)]
pub struct YggdrasilState {
    pub address: String,
    pub subnet: String,
    pub public_key: String,
    pub routing_entries: i64,
    pub peers_json: String,
    pub tree_json: String,
}

/// A network interface, as an app gives it.
#[derive(Debug)]
pub struct AndroidNetworkInterface {
    pub name: String,
    pub index: u32,
    pub addrs: Vec<String>,
}

/// Who is told whether the node is online.
pub trait YggdrasilStateListener {
    /// The node went online or offline.
    fn on_connectivity_changed(&self, is_online: bool);
}

/// The view of networks behind nodes.
pub open spec fn subnets_view(v: Seq<(String, Vec<String>)>) -> Seq<(Seq<char>, Seq<Seq<char>>)> {
    v.map_values(|e: (String, Vec<String>)| (e.0@, texts_view(e.1@)))
}

/// The property of being the entry of a node.
pub open spec fn subnet_of(key: Seq<char>) -> spec_fn((Seq<char>, Seq<Seq<char>>)) -> bool {
    |e: (Seq<char>, Seq<Seq<char>>)| e.0 == key
}

/// The networks behind nodes. Where a node is given twice, the last counts.
pub open spec fn collected(v: Seq<CkrRemoteSubnet>) -> Seq<(Seq<char>, Seq<Seq<char>>)>
    decreases v.len(),
{
    if v.len() == 0 {
        Seq::empty()
    } else {
        let rest = collected(v.drop_last());
        let entry = (v.last().public_key@, texts_view(v.last().cidrs@));
        let at = crate::seqs::first_index(rest, subnet_of(entry.0));
        if at < rest.len() {
            rest.update(at, entry)
        } else {
            rest.push(entry)
        }
    }
}

/// Whether two configurations of discovery say the same.
pub open spec fn same_multicast(
    a: config::MulticastInterfaceConfig,
    b: MulticastInterfaceConfig,
) -> bool {
    &&& a.filter@ == b.filter@
    &&& a.beacon == b.beacon
    &&& a.listen == b.listen
    &&& a.port == b.port
    &&& a.priority == b.priority
    &&& a.password@ == b.password@
}

/// Whether lists of such configurations say the same.
pub open spec fn same_multicasts(
    a: Seq<config::MulticastInterfaceConfig>,
    b: Seq<MulticastInterfaceConfig>,
) -> bool {
    a.len() == b.len() && forall|i: int|
        0 <= i < a.len() ==> same_multicast(#[trigger] a[i], b[i])
}

fn copy_texts(v: &Vec<String>) -> (r: Vec<String>)
    ensures
        texts_view(r@) == texts_view(v@),
{
    let mut r: Vec<String> = Vec::new();
    let mut i: usize = 0;
    assert(texts_view(r@) =~= texts_view(v@).take(0));
    while i < v.len()
        invariant
            i <= v@.len(),
            texts_view(r@) == texts_view(v@).take(i as int),
        decreases v@.len() - i,
    {
        let ghost before = r@;
        r.push(v[i].clone());
        proof {
            assert(texts_view(r@) =~= texts_view(before).push(v@[i as int]@));
            assert(texts_view(r@) =~= texts_view(v@).take(i + 1));
        }
        i = i + 1;
    }
    assert(texts_view(v@).take(i as int) =~= texts_view(v@));
    r
}

fn collect_subnets(v: &Vec<CkrRemoteSubnet>) -> (r: Vec<(String, Vec<String>)>)
    ensures
        subnets_view(r@) == collected(v@),
{
    let mut r: Vec<(String, Vec<String>)> = Vec::new();
    let mut i: usize = 0;
    assert(v@.take(0) =~= Seq::empty());
    assert(subnets_view(r@) =~= Seq::empty());
    while i < v.len()
        invariant
            i <= v@.len(),
            subnets_view(r@) == collected(v@.take(i as int)),
        decreases v@.len() - i,
    {
        assert(v@.take(i + 1).drop_last() =~= v@.take(i as int));
        let ghost rest = subnets_view(r@);
        let ghost key = v@[i as int].public_key@;
        let mut at: usize = 0;
        while at < r.len() && !(r[at].0 == v[i].public_key)
            invariant
                at <= r@.len(),
                i < v@.len(),
                rest == subnets_view(r@),
                key == v@[i as int].public_key@,
                forall|j: int| 0 <= j < at ==> !subnet_of(key)(#[trigger] rest[j]),
            decreases r@.len() - at,
        {
            assert(rest[at as int].0 == r@[at as int].0@);
            at = at + 1;
        }
        proof {
            if at < r@.len() {
                assert(rest[at as int].0 == r@[at as int].0@);
            }
            crate::seqs::lemma_first_index_at(rest, subnet_of(key), at as int);
        }
        let cidrs = copy_texts(&v[i].cidrs);
        let ghost entry = (key, texts_view(cidrs@));
        if at < r.len() {
            r.set(at, (v[i].public_key.clone(), cidrs));
            assert(subnets_view(r@) =~= rest.update(at as int, entry));
        } else {
            r.push((v[i].public_key.clone(), cidrs));
            assert(subnets_view(r@) =~= rest.push(entry));
        }
        i = i + 1;
    }
    assert(v@.take(i as int) =~= v@);
    r
}

fn take_multicasts(v: &Vec<MulticastInterfaceConfig>) -> (r: Vec<config::MulticastInterfaceConfig>)
    ensures
        same_multicasts(r@, v@),
{
    let mut r: Vec<config::MulticastInterfaceConfig> = Vec::new();
    let mut i: usize = 0;
    while i < v.len()
        invariant
            i <= v@.len(),
            r@.len() == i,
            forall|j: int| 0 <= j < i ==> same_multicast(#[trigger] r@[j], v@[j]),
        decreases v@.len() - i,
    {
        r.push(
            config::MulticastInterfaceConfig {
                filter: v[i].filter.clone(),
                beacon: v[i].beacon,
                listen: v[i].listen,
                port: v[i].port,
                priority: v[i].priority,
                password: v[i].password.clone(),
            },
        );
        i = i + 1;
    }
    r
}

fn give_multicasts(v: &Vec<config::MulticastInterfaceConfig>) -> (r: Vec<MulticastInterfaceConfig>)
    ensures
        same_multicasts(v@, r@),
{
    let mut r: Vec<MulticastInterfaceConfig> = Vec::new();
    let mut i: usize = 0;
    while i < v.len()
        invariant
            i <= v@.len(),
            r@.len() == i,
            forall|j: int| 0 <= j < i ==> same_multicast(v@[j], #[trigger] r@[j]),
        decreases v@.len() - i,
    {
        r.push(
            MulticastInterfaceConfig {
                filter: v[i].filter.clone(),
                beacon: v[i].beacon,
                listen: v[i].listen,
                port: v[i].port,
                priority: v[i].priority,
                password: v[i].password.clone(),
            },
        );
        i = i + 1;
    }
    assert forall|j: int| 0 <= j < v@.len() implies same_multicast(#[trigger] v@[j], r@[j]) by {
        assert(same_multicast(v@[j], r@[j]));
    }
    r
}

/// Whether a configuration is the one that an app gives. An app has no administration and no
/// tunnel interface of its own, filters packets, routes addresses of the mesh, and leaves the
/// routes of the host alone. An empty name is none.
pub open spec fn converted(cfg: YggdrasilConfig, r: config::Config) -> bool {
    &&& r.private_key@ == cfg.private_key@
    &&& texts_view(r.peers@) == texts_view(cfg.peers@)
    &&& texts_view(r.listen@) == texts_view(cfg.listen@)
    &&& r.admin_listen@ == "none"@
    &&& r.if_name@ == "none"@
    &&& r.if_mtu == cfg.if_mtu
    &&& match r.node_name {
        Some(name) => name@ == cfg.node_info_name@ && name@.len() > 0,
        None => cfg.node_info_name@.len() == 0,
    }
    &&& !r.node_info_privacy
    &&& r.allowed_public_keys@.len() == 0
    &&& same_multicasts(r.multicast_interfaces@, cfg.multicast_interfaces@)
    &&& r.tunnel_routing.enable == cfg.tunnel_routing.enable
    &&& r.tunnel_routing.yggdrasil_routing
    &&& r.tunnel_routing.ipv4_address@ == cfg.tunnel_routing.ipv4_address@
    &&& subnets_view(r.tunnel_routing.remote_subnets@) == collected(
        cfg.tunnel_routing.remote_subnets@,
    )
    &&& !r.tunnel_routing.install_system_routes
    &&& r.firewall.enable
    &&& r.firewall.open_tcp@.len() == 0
    &&& r.firewall.open_udp@.len() == 0
    &&& r.firewall.open_all_for@.len() == 0
    &&& r.firewall.allow_icmp_echo
}

/// The configuration that an app gives.
pub fn convert_config(cfg: &YggdrasilConfig) -> (r: config::Config)
    ensures
        converted(*cfg, r),
{
    let mut firewall = config::FirewallConfig::default();
    firewall.enable = true;
    let node_name = if cfg.node_info_name.as_str().is_empty() {
        None
    } else {
        Some(cfg.node_info_name.clone())
    };
    config::Config {
        private_key: cfg.private_key.clone(),
        peers: copy_texts(&cfg.peers),
        listen: copy_texts(&cfg.listen),
        admin_listen: String::from_str("none"),
        if_name: String::from_str("none"),
        if_mtu: cfg.if_mtu,
        node_name,
        node_info_privacy: false,
        allowed_public_keys: Vec::new(),
        multicast_interfaces: take_multicasts(&cfg.multicast_interfaces),
        tunnel_routing: config::TunnelRoutingConfig {
            enable: cfg.tunnel_routing.enable,
            yggdrasil_routing: true,
            ipv4_address: cfg.tunnel_routing.ipv4_address.clone(),
            remote_subnets: collect_subnets(&cfg.tunnel_routing.remote_subnets),
            install_system_routes: false,
        },
        firewall,
    }
}

/// The name that a node tells others: an empty one where it has none.
pub open spec fn told_name(cfg: config::Config) -> Seq<char> {
    match cfg.node_name {
        Some(name) => name@,
        None => Seq::empty(),
    }
}

/// Whether an app is given a configuration: what it can change, without routing.
pub open spec fn shown(cfg: config::Config, r: YggdrasilConfig) -> bool {
    &&& r.private_key@ == cfg.private_key@
    &&& texts_view(r.peers@) == texts_view(cfg.peers@)
    &&& texts_view(r.listen@) == texts_view(cfg.listen@)
    &&& r.if_mtu == cfg.if_mtu
    &&& same_multicasts(cfg.multicast_interfaces@, r.multicast_interfaces@)
    &&& r.node_info_name@ == told_name(cfg)
    &&& !r.tunnel_routing.enable
    &&& r.tunnel_routing.ipv4_address@.len() == 0
    &&& r.tunnel_routing.remote_subnets@.len() == 0
}

/// What an app is given of a configuration.
pub fn config_to_udl(cfg: &config::Config) -> (r: YggdrasilConfig)
    ensures
        shown(*cfg, r),
{
    let node_info_name = match &cfg.node_name {
        Some(name) => name.clone(),
        None => String::new(),
    };
    YggdrasilConfig {
        private_key: cfg.private_key.clone(),
        peers: copy_texts(&cfg.peers),
        listen: copy_texts(&cfg.listen),
        if_mtu: cfg.if_mtu,
        multicast_interfaces: give_multicasts(&cfg.multicast_interfaces),
        node_info_name,
        tunnel_routing: TunnelRoutingConfig {
            enable: false,
            ipv4_address: String::new(),
            remote_subnets: Vec::new(),
        },
    }
}

/// Whether a configuration is the one that an app is given for a secret key: nothing but the key
/// differs from what a node has unless told otherwise.
pub open spec fn generated(secret: [u8; 32], r: YggdrasilConfig) -> bool {
    &&& r.private_key@ == hex_text(secret@ + ed25519_public(secret@))
    &&& secret_of(r.private_key@) == Ok::<[u8; 32], KeyError>(secret)
    &&& r.peers@.len() == 0
    &&& texts_view(r.listen@) == seq!["tcp://[::]:0"@]
    &&& r.if_mtu == 65535
    &&& r.multicast_interfaces@.len() == 1
    &&& r.multicast_interfaces@[0].filter@ == "*"@
    &&& r.multicast_interfaces@[0].beacon
    &&& r.multicast_interfaces@[0].listen
    &&& r.multicast_interfaces@[0].port == 0
    &&& r.multicast_interfaces@[0].priority == 0
    &&& r.multicast_interfaces@[0].password@.len() == 0
    &&& r.node_info_name@.len() == 0
    &&& !r.tunnel_routing.enable
    &&& r.tunnel_routing.ipv4_address@.len() == 0
    &&& r.tunnel_routing.remote_subnets@.len() == 0
}

/// A configuration for a secret key.
pub fn generate_config_with(secret: &[u8; 32]) -> (r: YggdrasilConfig)
    ensures
        generated(*secret, r),
{
    let mut cfg = config::Config::default();
    cfg.private_key = config::private_key_text(secret);
    assert(texts_view(cfg.listen@) =~= seq!["tcp://[::]:0"@]);
    let r = config_to_udl(&cfg);
    proof {
        assert(texts_view(r.peers@).len() == 0);
        assert(same_multicast(cfg.multicast_interfaces@[0], r.multicast_interfaces@[0]));
    }
    r
}

/// A configuration with a new key, drawn at random.
pub fn generate_config() -> (r: YggdrasilConfig)
    ensures
        exists|secret: [u8; 32]| generated(secret, r),
{
    let secret = random_secret();
    generate_config_with(&secret)
}

/// Whether every text is a network.
pub open spec fn all_nets(v: Seq<String>) -> bool {
    forall|i: int| 0 <= i < v.len() ==> cidr_of((#[trigger] v[i])@) is Some
}

/// The list with the networks of the first `n` texts that are not in it.
pub open spec fn nets_listed(out: Seq<Seq<char>>, v: Seq<String>, n: nat) -> Seq<Seq<char>>
    decreases n,
{
    if n == 0 || n > v.len() {
        out
    } else {
        let rest = nets_listed(out, v, (n - 1) as nat);
        let t = cidr_shown(cidr_of(v[n - 1]@)->0);
        if rest.contains(t) {
            rest
        } else {
            rest.push(t)
        }
    }
}

/// The different networks behind nodes. A node with a text that is no network is passed over.
pub open spec fn nets_of(v: Seq<CkrRemoteSubnet>) -> Seq<Seq<char>>
    decreases v.len(),
{
    if v.len() == 0 {
        Seq::empty()
    } else {
        let rest = nets_of(v.drop_last());
        if all_nets(v.last().cidrs@) {
            nets_listed(rest, v.last().cidrs@, v.last().cidrs@.len())
        } else {
            rest
        }
    }
}

fn has_text(v: &Vec<String>, t: &String) -> (r: bool)
    ensures
        r == texts_view(v@).contains(t@),
{
    let ghost all = texts_view(v@);
    let mut i: usize = 0;
    while i < v.len()
        invariant
            i <= v@.len(),
            all == texts_view(v@),
            forall|j: int| 0 <= j < i ==> all[j] != t@,
        decreases v@.len() - i,
    {
        assert(all[i as int] == v@[i as int]@);
        if v[i] == *t {
            return true;
        }
        i = i + 1;
    }
    false
}

fn parse_nets(v: &Vec<String>) -> (r: Option<Vec<Cidr>>)
    ensures
        match r {
            Some(c) => all_nets(v@) && c@.len() == v@.len() && forall|i: int|
                0 <= i < v@.len() ==> cidr_of(v@[i]@) == Some(#[trigger] c@[i]) && c@[i].wf(),
            None => !all_nets(v@),
        },
{
    let mut c: Vec<Cidr> = Vec::new();
    let mut i: usize = 0;
    while i < v.len()
        invariant
            i <= v@.len(),
            c@.len() == i,
            forall|j: int| 0 <= j < i ==> cidr_of(v@[j]@) == Some(#[trigger] c@[j]) && c@[j].wf(),
        decreases v@.len() - i,
    {
        match parse_cidr(v[i].as_str()) {
            Some(n) => {
                c.push(n);
            },
            None => {
                assert(cidr_of(v@[i as int]@) is None);
                return None;
            },
        }
        i = i + 1;
    }
    assert forall|j: int| 0 <= j < v@.len() implies cidr_of((#[trigger] v@[j])@) is Some by {
        assert(cidr_of(v@[j]@) == Some(c@[j]));
    }
    Some(c)
}

/// The networks that the system routes into the tunnel: the different ones behind nodes, where
/// routing is enabled.
pub fn expand_ckr_cidrs(config: &TunnelRoutingConfig) -> (r: Vec<String>)
    ensures
        texts_view(r@) == (if config.enable {
            nets_of(config.remote_subnets@)
        } else {
            Seq::empty()
        }),
{
    let mut out: Vec<String> = Vec::new();
    assert(texts_view(out@) =~= Seq::empty());
    if !config.enable {
        return out;
    }
    let v = &config.remote_subnets;
    let mut i: usize = 0;
    assert(v@.take(0) =~= Seq::empty());
    while i < v.len()
        invariant
            i <= v@.len(),
            texts_view(out@) == nets_of(v@.take(i as int)),
        decreases v@.len() - i,
    {
        assert(v@.take(i + 1).drop_last() =~= v@.take(i as int));
        if let Some(c) = parse_nets(&v[i].cidrs) {
            let ghost first = texts_view(out@);
            let ghost cidrs = v@[i as int].cidrs@;
            let mut n: usize = 0;
            while n < c.len()
                invariant
                    n <= c@.len(),
                    c@.len() == cidrs.len(),
                    forall|j: int|
                        0 <= j < cidrs.len() ==> cidr_of(cidrs[j]@) == Some(#[trigger] c@[j])
                            && c@[j].wf(),
                    texts_view(out@) == nets_listed(first, cidrs, n as nat),
                decreases c@.len() - n,
            {
                let ghost before = texts_view(out@);
                assert(cidr_of(cidrs[n as int]@) == Some(c@[n as int]));
                let t = show_cidr(&c[n]);
                if !has_text(&out, &t) {
                    let ghost shown_text = t@;
                    out.push(t);
                    assert(texts_view(out@) =~= before.push(shown_text));
                }
                n = n + 1;
            }
        }
        i = i + 1;
    }
    assert(v@.take(i as int) =~= v@);
    out
}

/// The version of the protocol.
pub fn get_version() -> (r: String)
    ensures
        r@ == decimal_text(PROTOCOL_VERSION_MAJOR as nat) + "."@ + decimal_text(
            PROTOCOL_VERSION_MINOR as nat,
        ),
{
    let major = number_text(PROTOCOL_VERSION_MAJOR as u64);
    let minor = number_text(PROTOCOL_VERSION_MINOR as u64);
    major.concat(".").concat(minor.as_str())
}

// ---------------------------------------------------------------------------
// The tunnel of an app
// ---------------------------------------------------------------------------

/// How far a node has come.
#[derive(Clone, Copy, Debug, PartialEq, Eq, Structural)]
pub enum NodePhase {
    Stopped,
    Running,
    /// It runs, and has a tunnel.
    Tunnelling,
}

/// Why no tunnel is started.
#[derive(Clone, Copy, Debug, PartialEq, Eq, Structural)]
pub enum TunError {
    NotStarted,
    AlreadyStarted,
}

/// Starts the tunnel of a node that runs and has none.
pub fn start_tun(phase: NodePhase) -> (r: Result<NodePhase, TunError>)
    ensures
        r == (match phase {
            NodePhase::Stopped => Err::<NodePhase, TunError>(TunError::NotStarted),
            NodePhase::Running => Ok(NodePhase::Tunnelling),
            NodePhase::Tunnelling => Err(TunError::AlreadyStarted),
        }),
{
    match phase {
        NodePhase::Stopped => Err(TunError::NotStarted),
        NodePhase::Running => Ok(NodePhase::Tunnelling),
        NodePhase::Tunnelling => Err(TunError::AlreadyStarted),
    }
}

/// Stops the tunnel. Says whether there was one.
pub fn stop_tun(phase: NodePhase) -> (r: (NodePhase, bool))
    ensures
        r == (match phase {
            NodePhase::Tunnelling => (NodePhase::Running, true),
            _ => (phase, false),
        }),
{
    match phase {
        NodePhase::Tunnelling => (NodePhase::Running, true),
        _ => (phase, false),
    }
}

/// What happens where packets are read from the tunnel.
#[derive(Clone, Copy, Debug, PartialEq, Eq, Structural)]
pub enum TunReadEvent {
    /// The tunnel was stopped.
    Stopped,
    /// Waiting for a packet failed.
    WaitFailed,
    /// So many bytes were read.
    Read(usize),
    ReadFailed,
    /// There was no packet after all.
    WouldBlock,
}

/// What is done next there.
#[derive(Clone, Copy, Debug, PartialEq, Eq, Structural)]
pub enum TunReadAction {
    Quit,
    /// Wait for a packet.
    Wait,
    /// Send that many bytes over the mesh, whether or not it takes them, and wait for a packet.
    Forward(usize),
}

/// One step of reading packets from the tunnel: it ends with the tunnel and with every failure.
pub fn tun_read_step(event: TunReadEvent) -> (r: TunReadAction)
    ensures
        r == (match event {
            TunReadEvent::Read(n) => if n > 0 {
                TunReadAction::Forward(n)
            } else {
                TunReadAction::Quit
            },
            TunReadEvent::WouldBlock => TunReadAction::Wait,
            _ => TunReadAction::Quit,
        }),
{
    match event {
        TunReadEvent::Read(n) => {
            if n > 0 {
                TunReadAction::Forward(n)
            } else {
                TunReadAction::Quit
            }
        },
        TunReadEvent::WouldBlock => TunReadAction::Wait,
        _ => TunReadAction::Quit,
    }
}

/// What happens where packets are written to the tunnel.
#[derive(Clone, Copy, Debug, PartialEq, Eq, Structural)]
pub enum TunWriteEvent {
    /// The tunnel was stopped.
    Stopped,
    /// A packet of so many bytes came over the mesh.
    Packet(usize),
    /// Waiting for one failed.
    PacketFailed,
    /// Waiting for room in the tunnel failed.
    RoomFailed,
    Written,
    WriteFailed,
    /// There was no room after all.
    WouldBlock,
}

/// What is done next there.
#[derive(Clone, Copy, Debug, PartialEq, Eq, Structural)]
pub enum TunWriteAction {
    Quit,
    /// Wait for a packet from the mesh.
    NextPacket,
    /// Write that many bytes when there is room.
    Write(usize),
}

/// One step of writing packets to the tunnel, with the packet in hand if there is one. A packet
/// is tried until it is written or fails; then comes the next. Only the end of the tunnel ends it.
pub fn tun_write_step(in_hand: Option<usize>, event: TunWriteEvent) -> (r: TunWriteAction)
    ensures
        r == (match (in_hand, event) {
            (_, TunWriteEvent::Stopped) => TunWriteAction::Quit,
            (_, TunWriteEvent::RoomFailed) => TunWriteAction::Quit,
            (None, TunWriteEvent::Packet(n)) => if n > 0 {
                TunWriteAction::Write(n)
            } else {
                TunWriteAction::NextPacket
            },
            (Some(n), TunWriteEvent::WouldBlock) => TunWriteAction::Write(n),
            _ => TunWriteAction::NextPacket,
        }),
{
    match (in_hand, event) {
        (_, TunWriteEvent::Stopped) => TunWriteAction::Quit,
        (_, TunWriteEvent::RoomFailed) => TunWriteAction::Quit,
        (None, TunWriteEvent::Packet(n)) => {
            if n > 0 {
                TunWriteAction::Write(n)
            } else {
                TunWriteAction::NextPacket
            }
        },
        (Some(n), TunWriteEvent::WouldBlock) => TunWriteAction::Write(n),
        _ => TunWriteAction::NextPacket,
    }
}

/// What is told to the listener after something happened to a link: whether the node is online,
/// where that has changed.
pub fn connectivity_change(was_online: bool, is_online: bool) -> (r: Option<bool>)
    ensures
        r == (if was_online != is_online {
            Some(is_online)
        } else {
            None
        }),
{
    if was_online != is_online {
        Some(is_online)
    } else {
        None
    }
}

// ---------------------------------------------------------------------------
// Laws
// ---------------------------------------------------------------------------

/// A configuration that an app is given and gives back is the same in all that it can change,
/// and only differs in what an app does not have.
pub proof fn lemma_app_round_trip(
    cfg: config::Config,
    given: YggdrasilConfig,
    back: config::Config,
)
    requires
        shown(cfg, given),
        converted(given, back),
    ensures
        back.private_key@ == cfg.private_key@,
        texts_view(back.peers@) == texts_view(cfg.peers@),
        texts_view(back.listen@) == texts_view(cfg.listen@),
        back.if_mtu == cfg.if_mtu,
        told_name(back) == told_name(cfg),
        back.multicast_interfaces@.len() == cfg.multicast_interfaces@.len(),
        forall|i: int|
            0 <= i < cfg.multicast_interfaces@.len() ==> (#[trigger] back.multicast_interfaces@[i]).filter@
                == cfg.multicast_interfaces@[i].filter@,
{
    assert forall|i: int| 0 <= i < cfg.multicast_interfaces@.len() implies (
    #[trigger] back.multicast_interfaces@[i]).filter@ == cfg.multicast_interfaces@[i].filter@ by {
        assert(same_multicast(back.multicast_interfaces@[i], given.multicast_interfaces@[i]));
        assert(same_multicast(cfg.multicast_interfaces@[i], given.multicast_interfaces@[i]));
    }
}

/// A network is listed once.
pub proof fn lemma_nets_listed_once(out: Seq<Seq<char>>, v: Seq<String>, n: nat)
    requires
        out.no_duplicates(),
    ensures
        nets_listed(out, v, n).no_duplicates(),
    decreases n,
{
    if n > 0 && n <= v.len() {
        lemma_nets_listed_once(out, v, (n - 1) as nat);
    }
}

/// The networks of a node are those that its last entry gives.
pub proof fn lemma_last_entry_counts(v: Seq<CkrRemoteSubnet>, i: int)
    requires
        0 <= i < v.len(),
        forall|j: int| i < j < v.len() ==> (#[trigger] v[j]).public_key@ != v[i].public_key@,
    ensures
        collected(v).contains((v[i].public_key@, texts_view(v[i].cidrs@))),
    decreases v.len(),
{
    let front = v.drop_last();
    let rest = collected(front);
    let key = v.last().public_key@;
    let entry = (key, texts_view(v.last().cidrs@));
    let at = crate::seqs::first_index(rest, subnet_of(key));
    crate::seqs::lemma_first_index(rest, subnet_of(key));
    let all = collected(v);
    if i == v.len() - 1 {
        if at < rest.len() {
            assert(all[at] == entry);
        } else {
            assert(all[rest.len() as int] == entry);
        }
    } else {
        assert(v.last() == v[v.len() - 1]);
        assert forall|j: int| i < j < front.len() implies (#[trigger] front[j]).public_key@
            != front[i].public_key@ by {
            assert(front[j] == v[j]);
        }
        lemma_last_entry_counts(front, i);
        let old = (v[i].public_key@, texts_view(v[i].cidrs@));
        let k = choose|k: int| 0 <= k < rest.len() && rest[k] == old;
        if at < rest.len() {
            assert(subnet_of(key)(rest[at]));
            assert(k != at);
        }
        assert(all[k] == old);
    }
}

/// Every node is collected once, with the networks of an entry that was given for it and that no
/// later one overrules.
pub proof fn lemma_nothing_else_is_collected(v: Seq<CkrRemoteSubnet>)
    ensures
        forall|a: int, b: int|
            0 <= a < b < collected(v).len() ==> collected(v)[a].0 != collected(v)[b].0,
        forall|a: int|
            0 <= a < collected(v).len() ==> exists|i: int|
                {
                    &&& 0 <= i < v.len()
                    &&& (#[trigger] collected(v)[a]) == (
                        (#[trigger] v[i]).public_key@,
                        texts_view(v[i].cidrs@),
                    )
                    &&& forall|j: int|
                        i < j < v.len() ==> (#[trigger] v[j]).public_key@ != v[i].public_key@
                },
    decreases v.len(),
{
    if v.len() > 0 {
        let front = v.drop_last();
        let rest = collected(front);
        lemma_nothing_else_is_collected(front);
        let key = v.last().public_key@;
        let entry = (key, texts_view(v.last().cidrs@));
        let at = crate::seqs::first_index(rest, subnet_of(key));
        crate::seqs::lemma_first_index(rest, subnet_of(key));
        let all = collected(v);
        assert(v.last() == v[v.len() - 1]);
        if at < rest.len() {
            assert(subnet_of(key)(rest[at]));
        }
        assert forall|a: int| 0 <= a < rest.len() && a != at implies (#[trigger] rest[a]).0
            != key by {
            if a < at {
                assert(!subnet_of(key)(rest[a]));
            }
        }
        assert forall|a: int, b: int| 0 <= a < b < all.len() implies all[a].0 != all[b].0 by {
            if a < rest.len() && a != at {
                assert(all[a] == rest[a]);
            }
            if b < rest.len() && b != at {
                assert(all[b] == rest[b]);
            }
        }
        assert forall|a: int| 0 <= a < all.len() implies exists|i: int|
            {
                &&& 0 <= i < v.len()
                &&& (#[trigger] all[a]) == (
                    (#[trigger] v[i]).public_key@,
                    texts_view(v[i].cidrs@),
                )
                &&& forall|j: int|
                    i < j < v.len() ==> (#[trigger] v[j]).public_key@ != v[i].public_key@
            } by {
            if a < rest.len() && a != at {
                assert(all[a] == rest[a]);
                let i = choose|i: int|
                    {
                        &&& 0 <= i < front.len()
                        &&& rest[a] == (
                            (#[trigger] front[i]).public_key@,
                            texts_view(front[i].cidrs@),
                        )
                        &&& forall|j: int|
                            i < j < front.len() ==> (#[trigger] front[j]).public_key@
                                != front[i].public_key@
                    };
                assert(front[i] == v[i]);
                assert forall|j: int| i < j < v.len() implies (#[trigger] v[j]).public_key@
                    != v[i].public_key@ by {
                    if j < front.len() {
                        assert(front[j] == v[j]);
                    }
                }
            } else {
                assert(all[a] == entry);
                let i = v.len() - 1;
                assert(all[a] == (v[i].public_key@, texts_view(v[i].cidrs@)));
            }
        }
    }
}

proof fn lemma_nets_listed(out: Seq<Seq<char>>, v: Seq<String>, n: nat, t: Seq<char>)
    requires
        n <= v.len(),
    ensures
        nets_listed(out, v, n).contains(t) <==> (out.contains(t) || exists|j: int|
            0 <= j < n && cidr_shown(cidr_of((#[trigger] v[j])@)->0) == t),
    decreases n,
{
    if n > 0 {
        lemma_nets_listed(out, v, (n - 1) as nat, t);
        let rest = nets_listed(out, v, (n - 1) as nat);
        let u = cidr_shown(cidr_of(v[n - 1]@)->0);
        let all = nets_listed(out, v, n);
        if !rest.contains(u) {
            assert(all == rest.push(u));
            assert(all[rest.len() as int] == u);
            if rest.contains(t) {
                let k = choose|k: int| 0 <= k < rest.len() && rest[k] == t;
                assert(all[k] == t);
            }
            if all.contains(t) && !rest.contains(t) {
                let k = choose|k: int| 0 <= k < all.len() && all[k] == t;
                if k < rest.len() {
                    assert(rest[k] == t);
                }
            }
        }
    }
}

/// A network is routed into the tunnel if and only if it stands behind some node none of whose
/// texts fails to be a network: no such network is left out, wherever it stands, and no other one
/// is there. Each is there once.
pub proof fn lemma_every_network_is_routed(v: Seq<CkrRemoteSubnet>, t: Seq<char>)
    ensures
        nets_of(v).no_duplicates(),
        nets_of(v).contains(t) <==> exists|i: int, j: int|
            {
                &&& 0 <= i < v.len()
                &&& 0 <= j < v[i].cidrs@.len()
                &&& forall|k: int|
                    0 <= k < v[i].cidrs@.len() ==> cidr_of((#[trigger] v[i].cidrs@[k])@) is Some
                &&& cidr_shown(cidr_of((#[trigger] v[i].cidrs@[j])@)->0) == t
            },
    decreases v.len(),
{
    if v.len() > 0 {
        let front = v.drop_last();
        let rest = nets_of(front);
        lemma_every_network_is_routed(front, t);
        let n = v.len() - 1;
        let cidrs = v[n].cidrs@;
        assert(v.last() == v[n]);
        lemma_nets_listed(rest, cidrs, cidrs.len(), t);
        lemma_nets_listed_once(rest, cidrs, cidrs.len());
        if rest.contains(t) {
            let (i, j) = choose|i: int, j: int|
                {
                    &&& 0 <= i < front.len()
                    &&& 0 <= j < front[i].cidrs@.len()
                    &&& forall|k: int|
                        0 <= k < front[i].cidrs@.len() ==> cidr_of(
                            (#[trigger] front[i].cidrs@[k])@,
                        ) is Some
                    &&& cidr_shown(cidr_of((#[trigger] front[i].cidrs@[j])@)->0) == t
                };
            assert(front[i] == v[i]);
            assert(cidr_shown(cidr_of(v[i].cidrs@[j]@)->0) == t);
        }
        if all_nets(cidrs) && nets_of(v).contains(t) && !rest.contains(t) {
            let j = choose|j: int|
                0 <= j < cidrs.len() && cidr_shown(cidr_of((#[trigger] cidrs[j])@)->0) == t;
            assert(cidr_shown(cidr_of(v[n].cidrs@[j]@)->0) == t);
        }
        if exists|i: int, j: int|
            {
                &&& 0 <= i < v.len()
                &&& 0 <= j < v[i].cidrs@.len()
                &&& forall|k: int|
                    0 <= k < v[i].cidrs@.len() ==> cidr_of((#[trigger] v[i].cidrs@[k])@) is Some
                &&& cidr_shown(cidr_of((#[trigger] v[i].cidrs@[j])@)->0) == t
            } {
            let (i, j) = choose|i: int, j: int|
                {
                    &&& 0 <= i < v.len()
                    &&& 0 <= j < v[i].cidrs@.len()
                    &&& forall|k: int|
                        0 <= k < v[i].cidrs@.len() ==> cidr_of(
                            (#[trigger] v[i].cidrs@[k])@,
                        ) is Some
                    &&& cidr_shown(cidr_of((#[trigger] v[i].cidrs@[j])@)->0) == t
                };
            if i < n {
                assert(front[i] == v[i]);
                assert(cidr_shown(cidr_of(front[i].cidrs@[j]@)->0) == t);
            } else {
                assert(cidr_shown(cidr_of(cidrs[j]@)->0) == t);
                assert(all_nets(cidrs));
            }
        }
    }
}

} // verus!
