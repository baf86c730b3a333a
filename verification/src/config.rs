//! The configuration of a node.
use vstd::prelude::*;
use vstd::string::StringExecFns;
use crate::bytes::{append, bytes_eq, take_array};
use crate::crypto::{ed25519_public, public_key_of};
use crate::texts::{
    hex_bytes, hex_decode, hex_encode, hex_text, is_hex, key_of_hex, lemma_hex_round_trip, parse_key,
};
use crate::uris::pairs_view;
use crate::wire::{array_of, lemma_array_holds, lemma_array_of};

verus! {

/// The filter between the mesh and the host.
#[derive(Clone, Debug)]
pub struct FirewallConfig {
    /// Whether packets are filtered at all.
    pub enable: bool,
    /// TCP ports that are open to the mesh.
    pub open_tcp: Vec<u16>,
    /// UDP ports that are open to the mesh.
    pub open_udp: Vec<u16>,
    /// IPv6 networks from which everything is let through.
    pub open_all_for: Vec<String>,
    /// Whether pings are let through.
    pub allow_icmp_echo: bool,
}

/// The routing of networks outside the mesh to nodes.
#[derive(Clone, Debug)]
pub struct TunnelRoutingConfig {
    /// Whether such networks are routed.
    pub enable: bool,
    /// Whether addresses of the mesh are routed too.
    pub yggdrasil_routing: bool,
    /// The IPv4 address of the host on the tunnel, in CIDR notation.
    pub ipv4_address: String,
    /// The networks behind each node, by its key in hexadecimal.
    pub remote_subnets: Vec<(String, Vec<String>)>,
    /// Whether the host gets routes into the tunnel.
    pub install_system_routes: bool,
}

/// The discovery of neighbours on network interfaces.
#[derive(Clone, Debug)]
pub struct MulticastInterfaceConfig {
    /// A pattern for the names of interfaces: `*` stands for any text, `?` for any character.
    pub filter: String,
    /// Whether we make ourselves known.
    pub beacon: bool,
    /// Whether we look for others.
    pub listen: bool,
    /// The port on which we accept links, or zero for any.
    pub port: u16,
    /// The priority of links to those that were found.
    pub priority: u8,
    /// The password that those that are found must know.
    pub password: String,
}

/// The configuration of a node.
#[derive(Clone, Debug)]
pub struct Config {
    /// The secret and public key of the node, in hexadecimal.
    pub private_key: String,
    /// The nodes to link to.
    pub peers: Vec<String>,
    /// The addresses on which links are accepted.
    pub listen: Vec<String>,
    /// The address on which the node is administered.
    pub admin_listen: String,
    /// The name of the tunnel interface.
    pub if_name: String,
    /// The largest packet of the tunnel interface.
    pub if_mtu: u64,
    /// The name that the node tells others, if it has one.
    pub node_name: Option<String>,
    /// Whether others are not told how the node was built.
    pub node_info_privacy: bool,
    /// The keys of the only nodes that may link to us, in hexadecimal, if there are any.
    pub allowed_public_keys: Vec<String>,
    pub multicast_interfaces: Vec<MulticastInterfaceConfig>,
    pub tunnel_routing: TunnelRoutingConfig,
    pub firewall: FirewallConfig,
}

/// The filter unless told otherwise: off, with nothing open but for pings.
pub open spec fn no_filter(f: FirewallConfig) -> bool {
    &&& !f.enable
    &&& f.open_tcp@.len() == 0
    &&& f.open_udp@.len() == 0
    &&& f.open_all_for@.len() == 0
    &&& f.allow_icmp_echo
}

/// The routing of other networks unless told otherwise: off, and without any network.
pub open spec fn no_routing(t: TunnelRoutingConfig) -> bool {
    &&& !t.enable
    &&& t.yggdrasil_routing
    &&& t.ipv4_address@.len() == 0
    &&& t.remote_subnets@.len() == 0
    &&& t.install_system_routes
}

/// Discovery unless told otherwise: on all interfaces, both ways and without a password.
pub open spec fn everywhere(m: MulticastInterfaceConfig) -> bool {
    &&& m.filter@ == "*"@
    &&& m.beacon
    &&& m.listen
    &&& m.port == 0
    &&& m.priority == 0
    &&& m.password@.len() == 0
}

impl Default for FirewallConfig {
    fn default() -> (r: Self)
        ensures
            no_filter(r),
    {
        FirewallConfig {
            enable: false,
            open_tcp: Vec::new(),
            open_udp: Vec::new(),
            open_all_for: Vec::new(),
            allow_icmp_echo: true,
        }
    }
}

impl Default for TunnelRoutingConfig {
    fn default() -> (r: Self)
        ensures
            no_routing(r),
    {
        TunnelRoutingConfig {
            enable: false,
            yggdrasil_routing: true,
            ipv4_address: String::new(),
            remote_subnets: Vec::new(),
            install_system_routes: true,
        }
    }
}

/// The pattern for all interfaces.
pub fn default_multicast_filter() -> (r: String)
    ensures
        r@ == "*"@,
{
    String::from_str("*")
}

/// What a switch is that is not mentioned but on.
pub fn default_true() -> (r: bool)
    ensures
        r,
{
    true
}

/// Discovery on all interfaces.
pub fn default_multicast_interfaces() -> (r: Vec<MulticastInterfaceConfig>)
    ensures
        r@.len() == 1,
        everywhere(r@[0]),
{
    let mut r: Vec<MulticastInterfaceConfig> = Vec::new();
    r.push(
        MulticastInterfaceConfig {
            filter: default_multicast_filter(),
            beacon: true,
            listen: true,
            port: 0,
            priority: 0,
            password: String::new(),
        },
    );
    r
}

/// The address on which a node is administered unless told otherwise.
pub fn default_admin_listen() -> (r: String)
    ensures
        r@ == "tcp://localhost:9001"@,
{
    String::from_str("tcp://localhost:9001")
}

/// The name of the tunnel interface unless told otherwise: one is picked.
pub fn default_if_name() -> (r: String)
    ensures
        r@ == "auto"@,
{
    String::from_str("auto")
}

/// The largest packet of the tunnel interface unless told otherwise.
pub fn default_mtu() -> (r: u64)
    ensures
        r == 65535,
{
    65535
}

impl Default for Config {
    fn default() -> (r: Self)
        ensures
            r.private_key@.len() == 0,
            r.peers@.len() == 0,
            r.listen@.len() == 1,
            r.listen@[0]@ == "tcp://[::]:0"@,
            r.admin_listen@ == "tcp://localhost:9001"@,
            r.if_name@ == "auto"@,
            r.if_mtu == 65535,
            r.node_name is None,
            !r.node_info_privacy,
            r.allowed_public_keys@.len() == 0,
            r.multicast_interfaces@.len() == 1,
            everywhere(r.multicast_interfaces@[0]),
            no_routing(r.tunnel_routing),
            no_filter(r.firewall),
    {
        let mut listen: Vec<String> = Vec::new();
        listen.push(String::from_str("tcp://[::]:0"));
        Config {
            private_key: String::new(),
            peers: Vec::new(),
            listen,
            admin_listen: default_admin_listen(),
            if_name: default_if_name(),
            if_mtu: default_mtu(),
            node_name: None,
            node_info_privacy: false,
            allowed_public_keys: Vec::new(),
            multicast_interfaces: default_multicast_interfaces(),
            tunnel_routing: TunnelRoutingConfig::default(),
            firewall: FirewallConfig::default(),
        }
    }
}

/// What others are told of how a node was built, each under its name: nothing where they are not
/// to know.
pub open spec fn built(
    privacy: bool,
    name: Seq<char>,
    version: Seq<char>,
    os: Seq<char>,
    arch: Seq<char>,
) -> Seq<(Seq<char>, Seq<char>)> {
    if privacy {
        Seq::empty()
    } else {
        seq![
            ("buildname"@, name),
            ("buildversion"@, version),
            ("buildplatform"@, os),
            ("buildarch"@, arch),
        ]
    }
}

/// What others are told of how a node was built.
pub fn build_info(privacy: bool, name: &str, version: &str, os: &str, arch: &str) -> (r: Vec<
    (String, String),
>)
    ensures
        pairs_view(r@) == built(privacy, name@, version@, os@, arch@),
{
    let mut r: Vec<(String, String)> = Vec::new();
    if !privacy {
        r.push((String::from_str("buildname"), String::from_str(name)));
        r.push((String::from_str("buildversion"), String::from_str(version)));
        r.push((String::from_str("buildplatform"), String::from_str(os)));
        r.push((String::from_str("buildarch"), String::from_str(arch)));
    }
    assert(pairs_view(r@) =~= built(privacy, name@, version@, os@, arch@));
    r
}

/// What is wrong with the private key of a configuration.
#[derive(Clone, Copy, Debug, PartialEq, Eq, Structural)]
pub enum KeyError {
    /// There is none.
    Missing,
    /// It is not hexadecimal.
    Hex,
    /// It has another length than sixty-four bytes.
    Length(usize),
    /// The second half is not the public key of the first.
    Mismatch,
}

/// The secret key that a private key in hexadecimal stands for: the first half of it, where the
/// second half is the public key.
pub open spec fn secret_of(text: Seq<char>) -> Result<[u8; 32], KeyError> {
    if text.len() == 0 {
        Err(KeyError::Missing)
    } else if !is_hex(text) {
        Err(KeyError::Hex)
    } else {
        let b = hex_bytes(text);
        if b.len() != 64 {
            Err(KeyError::Length(b.len() as usize))
        } else if ed25519_public(b.take(32)) != b.skip(32) {
            Err(KeyError::Mismatch)
        } else {
            Ok(array_of::<32>(b.take(32)))
        }
    }
}

/// The keys among texts; those that are none are passed over.
pub open spec fn keys_among(texts: Seq<String>) -> Seq<[u8; 32]>
    decreases texts.len(),
{
    if texts.len() == 0 {
        Seq::empty()
    } else {
        let rest = keys_among(texts.drop_last());
        match key_of_hex(texts.last()@) {
            Some(k) => rest.push(array_of::<32>(k)),
            None => rest,
        }
    }
}

/// The keys of the only nodes that may link to us: none are singled out where no text is given. A
/// list that holds no key at all is still a list.
pub open spec fn allowed_among(texts: Seq<String>) -> Option<Seq<[u8; 32]>> {
    if texts.len() == 0 {
        None
    } else {
        Some(keys_among(texts))
    }
}

/// The keys among texts are those that some text stands for.
pub proof fn lemma_keys_among(texts: Seq<String>, key: [u8; 32])
    ensures
        keys_among(texts).contains(key) <==> exists|i: int|
            0 <= i < texts.len() && key_of_hex((#[trigger] texts[i])@) == Some(key@),
    decreases texts.len(),
{
    let keys = keys_among(texts);
    if texts.len() > 0 {
        let front = texts.drop_last();
        let rest = keys_among(front);
        lemma_keys_among(front, key);
        if rest.contains(key) {
            let i = choose|i: int|
                0 <= i < front.len() && key_of_hex((#[trigger] front[i])@) == Some(key@);
            assert(texts[i] == front[i]);
            let j = choose|j: int| 0 <= j < rest.len() && rest[j] == key;
            assert(keys[j] == key);
        }
        assert(texts.last() == texts[texts.len() - 1]);
        if let Some(k) = key_of_hex(texts.last()@) {
            lemma_array_holds::<32>(k);
            lemma_array_of(key);
            assert(keys[rest.len() as int] == array_of::<32>(k));
            if keys.contains(key) && !rest.contains(key) {
                let j = choose|j: int| 0 <= j < keys.len() && keys[j] == key;
                if j < rest.len() {
                    assert(rest[j] == key);
                }
            }
        }
        if exists|i: int| 0 <= i < texts.len() && key_of_hex((#[trigger] texts[i])@) == Some(key@) {
            let i = choose|i: int|
                0 <= i < texts.len() && key_of_hex((#[trigger] texts[i])@) == Some(key@);
            if i < front.len() {
                assert(front[i] == texts[i]);
            }
        }
    }
}

/// The private key of a configuration for a secret key: secret and public key in hexadecimal. It
/// reads back as the secret key.
pub fn private_key_text(secret: &[u8; 32]) -> (r: String)
    ensures
        r@ == hex_text(secret@ + ed25519_public(secret@)),
        secret_of(r@) == Ok::<[u8; 32], KeyError>(*secret),
{
    let public = public_key_of(secret);
    let mut pair: Vec<u8> = Vec::new();
    append(&mut pair, secret.as_slice());
    append(&mut pair, public.as_slice());
    assert(pair@ =~= secret@ + public@);
    let r = hex_encode(pair.as_slice());
    proof {
        lemma_hex_round_trip(pair@);
        lemma_array_of(*secret);
        assert(pair@.take(32) =~= secret@);
        assert(pair@.skip(32) =~= public@);
    }
    r
}

impl Config {
    /// The secret key of the node.
    pub fn signing_key(&self) -> (r: Result<[u8; 32], KeyError>)
        ensures
            r == secret_of(self.private_key@),
    {
        if self.private_key.as_str().is_empty() {
            return Err(KeyError::Missing);
        }
        let bytes = match hex_decode(self.private_key.as_str()) {
            Some(b) => b,
            None => {
                return Err(KeyError::Hex);
            },
        };
        if bytes.len() != 64 {
            return Err(KeyError::Length(bytes.len()));
        }
        let secret = take_array::<32>(bytes.as_slice(), 0);
        let public = take_array::<32>(bytes.as_slice(), 32);
        proof {
            lemma_array_of(secret);
            assert(secret@ =~= bytes@.take(32));
            assert(public@ =~= bytes@.skip(32));
        }
        let derived = public_key_of(&secret);
        if bytes_eq(derived.as_slice(), public.as_slice()) {
            Ok(secret)
        } else {
            Err(KeyError::Mismatch)
        }
    }

    /// The keys of the only nodes that may link to us, or nothing where every node may. Texts that
    /// are no keys are passed over; where no text is a key, no node may link to us.
    pub fn allowed_keys(&self) -> (r: Option<Vec<[u8; 32]>>)
        ensures
            match r {
                None => allowed_among(self.allowed_public_keys@) is None,
                Some(k) => allowed_among(self.allowed_public_keys@) == Some(k@),
            },
    {
        if self.allowed_public_keys.len() == 0 {
            return None;
        }
        let mut r: Vec<[u8; 32]> = Vec::new();
        let texts = &self.allowed_public_keys;
        let mut i: usize = 0;
        assert(texts@.take(0) =~= Seq::empty());
        while i < texts.len()
            invariant
                i <= texts@.len(),
                r@ == keys_among(texts@.take(i as int)),
            decreases texts@.len() - i,
        {
            assert(texts@.take(i + 1).drop_last() =~= texts@.take(i as int));
            if let Some(k) = parse_key(texts[i].as_str()) {
                proof {
                    lemma_array_of(k);
                }
                r.push(k);
            }
            i = i + 1;
        }
        assert(texts@.take(i as int) =~= texts@);
        Some(r)
    }
}

/// A text gives a secret key if and only if it is, in hexadecimal, that key and its public key
/// behind it: no other text gives one, and none gives another.
pub proof fn lemma_which_texts_are_secrets(text: Seq<char>, secret: [u8; 32])
    ensures
        secret_of(text) == Ok::<[u8; 32], KeyError>(secret) <==> text.len() > 0 && is_hex(text)
            && hex_bytes(text) == secret@ + ed25519_public(secret@)
            && ed25519_public(secret@).len() == 32,
{
    let b = hex_bytes(text);
    if b.len() == 64 {
        lemma_array_holds::<32>(b.take(32));
        assert(b =~= b.take(32) + b.skip(32));
    }
    if b == secret@ + ed25519_public(secret@) && ed25519_public(secret@).len() == 32 {
        assert(b.take(32) =~= secret@);
        assert(b.skip(32) =~= ed25519_public(secret@));
        lemma_array_of(secret);
    }
}

/// Keys stand in the order of their texts: the keys of two lists, one after the other, are those
/// of the first and behind them those of the second, and a single text gives its own key or none.
pub proof fn lemma_keys_in_a_row(a: Seq<String>, b: Seq<String>)
    ensures
        keys_among(a + b) == keys_among(a) + keys_among(b),
        a.len() == 1 ==> match key_of_hex(a[0]@) {
            Some(k) => keys_among(a).len() == 1 && keys_among(a)[0]@ == k,
            None => keys_among(a).len() == 0,
        },
    decreases b.len(),
{
    if a.len() == 1 {
        reveal_with_fuel(keys_among, 2);
        if let Some(k) = key_of_hex(a[0]@) {
            lemma_array_holds::<32>(k);
        }
    }
    if b.len() == 0 {
        assert(a + b =~= a);
        assert(keys_among(a) + keys_among(b) =~= keys_among(a));
    } else {
        lemma_keys_in_a_row(a, b.drop_last());
        assert((a + b).drop_last() =~= a + b.drop_last());
        assert((a + b).last() == b.last());
        assert(keys_among(a + b) =~= keys_among(a) + keys_among(b));
    }
}

} // verus!
