//! IP addresses, networks, and the addresses of the mesh.
use vstd::prelude::*;
use crate::bytes::{bytes_eq, lemma_array_view_eq};

verus! {

/// An IP address.
#[derive(Clone, Copy, Debug, PartialEq, Eq)]
pub enum Ip {
    V4([u8; 4]),
    V6([u8; 16]),
}

impl Ip {
    /// The bytes of the address.
    pub open spec fn octets(&self) -> Seq<u8> {
        match *self {
            Ip::V4(a) => a@,
            Ip::V6(a) => a@,
        }
    }

    /// Whether two addresses are the same.
    pub fn same(&self, other: &Self) -> (r: bool)
        ensures
            r == (*self == *other),
    {
        match (self, other) {
            (Ip::V4(a), Ip::V4(b)) => {
                proof {
                    lemma_array_view_eq(*a, *b);
                }
                bytes_eq(a.as_slice(), b.as_slice())
            },
            (Ip::V6(a), Ip::V6(b)) => {
                proof {
                    lemma_array_view_eq(*a, *b);
                }
                bytes_eq(a.as_slice(), b.as_slice())
            },
            _ => false,
        }
    }
}

/// A network: an address in it, and how many of its first bits all addresses in it share.
#[derive(Clone, Copy, Debug, PartialEq, Eq)]
pub struct Cidr {
    pub addr: Ip,
    pub prefix_len: u8,
}

impl Cidr {
    /// The prefix is no longer than the address.
    pub open spec fn wf(&self) -> bool {
        self.prefix_len <= 8 * self.addr.octets().len()
    }

    /// Whether two networks are written the same.
    pub fn same(&self, other: &Self) -> (r: bool)
        ensures
            r == (*self == *other),
    {
        self.prefix_len == other.prefix_len && self.addr.same(&other.addr)
    }
}

/// Bit `i` of an address, high bits first.
pub open spec fn bit_at(s: Seq<u8>, i: int) -> u8 {
    (s[i / 8] >> ((7 - i % 8) as u8)) & 1
}

/// Whether two addresses share their first `n` bits.
pub open spec fn share_prefix(a: Seq<u8>, b: Seq<u8>, n: int) -> bool {
    forall|i: int| 0 <= i < n ==> #[trigger] bit_at(a, i) == bit_at(b, i)
}

/// Whether an address is in a network: it is of the same family and shares the prefix.
pub open spec fn in_net(c: Cidr, ip: Ip) -> bool {
    match (c.addr, ip) {
        (Ip::V4(a), Ip::V4(b)) => share_prefix(a@, b@, c.prefix_len as int),
        (Ip::V6(a), Ip::V6(b)) => share_prefix(a@, b@, c.prefix_len as int),
        _ => false,
    }
}

/// The network that a text in CIDR notation stands for.
pub uninterp spec fn cidr_of(text: Seq<char>) -> Option<Cidr>;

/// Calls `ipnet::IpNet::from_str`: the network is a function of the text, and its prefix is no
/// longer than the address.
#[verifier::external_body]
pub(crate) fn parse_cidr(text: &str) -> (r: Option<Cidr>)
    ensures
        r == cidr_of(text@),
        r is Some ==> r->0.wf(),
{
    match text.parse::<ipnet::IpNet>() {
        Ok(ipnet::IpNet::V4(n)) => Some(Cidr { addr: Ip::V4(n.addr().octets()), prefix_len: n.prefix_len() }),
        Ok(ipnet::IpNet::V6(n)) => Some(Cidr { addr: Ip::V6(n.addr().octets()), prefix_len: n.prefix_len() }),
        Err(_) => None,
    }
}

/// Calls `ipnet::Ipv4Net::contains`: whether the address shares the prefix.
#[verifier::external_body]
pub(crate) fn contains_v4(addr: &[u8; 4], prefix_len: u8, ip: &[u8; 4]) -> (r: bool)
    requires
        prefix_len <= 32,
    ensures
        r == share_prefix(addr@, ip@, prefix_len as int),
{
    let host = ipnet::Ipv4Net::new((*ip).into(), 32).unwrap().addr();
    ipnet::Ipv4Net::new((*addr).into(), prefix_len).unwrap().contains(&host)
}

/// Calls `ipnet::Ipv6Net::contains`: whether the address shares the prefix.
#[verifier::external_body]
pub(crate) fn contains_v6(addr: &[u8; 16], prefix_len: u8, ip: &[u8; 16]) -> (r: bool)
    requires
        prefix_len <= 128,
    ensures
        r == share_prefix(addr@, ip@, prefix_len as int),
{
    let host = ipnet::Ipv6Net::new((*ip).into(), 128).unwrap().addr();
    ipnet::Ipv6Net::new((*addr).into(), prefix_len).unwrap().contains(&host)
}

/// Calls `ipnet::Ipv4Net::network`: the prefix stays and the bits behind it are zero.
#[verifier::external_body]
pub(crate) fn network_v4(addr: &[u8; 4], prefix_len: u8) -> (r: [u8; 4])
    requires
        prefix_len <= 32,
    ensures
        share_prefix(addr@, r@, prefix_len as int),
        forall|i: int| prefix_len <= i < 32 ==> #[trigger] bit_at(r@, i) == 0,
{
    ipnet::Ipv4Net::new((*addr).into(), prefix_len).unwrap().network().octets()
}

/// Calls `ipnet::Ipv6Net::network`: the prefix stays and the bits behind it are zero.
#[verifier::external_body]
pub(crate) fn network_v6(addr: &[u8; 16], prefix_len: u8) -> (r: [u8; 16])
    requires
        prefix_len <= 128,
    ensures
        share_prefix(addr@, r@, prefix_len as int),
        forall|i: int| prefix_len <= i < 128 ==> #[trigger] bit_at(r@, i) == 0,
{
    ipnet::Ipv6Net::new((*addr).into(), prefix_len).unwrap().network().octets()
}

/// The text of a network in CIDR notation.
pub uninterp spec fn cidr_shown(c: Cidr) -> Seq<char>;

/// Calls `ipnet::Ipv4Net::to_string` or `ipnet::Ipv6Net::to_string`: the text is a function of the
/// network.
#[verifier::external_body]
pub(crate) fn show_cidr(c: &Cidr) -> (r: String)
    requires
        c.wf(),
    ensures
        r@ == cidr_shown(*c),
{
    match c.addr {
        Ip::V4(a) => ipnet::Ipv4Net::new(a.into(), c.prefix_len).unwrap().to_string(),
        Ip::V6(a) => ipnet::Ipv6Net::new(a.into(), c.prefix_len).unwrap().to_string(),
    }
}

impl Cidr {
    /// Whether an address is in the network.
    pub fn contains(&self, ip: &Ip) -> (r: bool)
        requires
            self.wf(),
        ensures
            r == in_net(*self, *ip),
    {
        match (&self.addr, ip) {
            (Ip::V4(a), Ip::V4(b)) => contains_v4(a, self.prefix_len, b),
            (Ip::V6(a), Ip::V6(b)) => contains_v6(a, self.prefix_len, b),
            _ => false,
        }
    }
}

/// The first address of a network: the prefix, and zero bits behind it.
pub fn network_of(c: &Cidr) -> (r: Ip)
    requires
        c.wf(),
    ensures
        in_net(*c, r),
        forall|i: int|
            c.prefix_len <= i < 8 * c.addr.octets().len() ==> #[trigger] bit_at(r.octets(), i) == 0,
{
    match &c.addr {
        Ip::V4(a) => Ip::V4(network_v4(a, c.prefix_len)),
        Ip::V6(a) => Ip::V6(network_v6(a, c.prefix_len)),
    }
}

/// Whether an IPv6 address is that of a node.
pub open spec fn is_node_address(a: [u8; 16]) -> bool {
    a@[0] == 0x02
}

/// Whether the first half of an IPv6 address is the subnet of a node.
pub open spec fn is_node_subnet(s: [u8; 8]) -> bool {
    s@[0] == 0x03
}

/// Whether an IPv6 address is that of a node.
pub fn is_valid_address(a: &[u8; 16]) -> (r: bool)
    ensures
        r == is_node_address(*a),
{
    a[0] == 0x02
}

/// Whether the first half of an IPv6 address is the subnet of a node.
pub fn is_valid_subnet(s: &[u8; 8]) -> (r: bool)
    ensures
        r == is_node_subnet(*s),
{
    s[0] == 0x03
}

/// Whether an address belongs to the mesh: an IPv6 address of a node or in the subnet of one.
pub open spec fn in_mesh(ip: Ip) -> bool {
    match ip {
        Ip::V4(_) => false,
        Ip::V6(a) => a@[0] == 0x02 || a@[0] == 0x03,
    }
}

/// Whether an address belongs to the mesh.
pub fn is_yggdrasil_destination(ip: &Ip) -> (r: bool)
    ensures
        r == in_mesh(*ip),
{
    match ip {
        Ip::V4(_) => false,
        Ip::V6(a) => {
            let half = crate::bytes::take_array::<8>(a.as_slice(), 0);
            is_valid_address(a) || is_valid_subnet(&half)
        },
    }
}

} // verus!
